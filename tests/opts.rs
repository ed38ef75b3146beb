use cxt::flags::CompileOptionFlags;
use cxt::opts::{
    check_directory, check_file, contains_str, locate_database, CMakeCompileCommand, CMakeCompileCommands,
    CompileOption, CompileOptions, OptionsError, PathKind,
};

fn record(directory: &str, command: &str, file: &str, output: &str) -> CMakeCompileCommand {
    CMakeCompileCommand {
        directory: directory.to_string(),
        command: command.to_string(),
        file: file.to_string(),
        output: output.to_string(),
    }
}

fn from_cmd(command: &str) -> CompileOption {
    CompileOption::from_command(&record("/build", command, "a.cc", "a.o"))
}

fn strs(v: &[&str]) -> Vec<String> {
    v.iter().map(|s| s.to_string()).collect()
}

fn pair(a: &str, b: &str) -> (String, String) {
    (a.to_string(), b.to_string())
}

const FLOPPY_COMMAND: &str = r"C:\PROGRA~1\LLVM\bin\clang++.exe -DCMAKE_PROJECT_VERSION_MAJOR=1 -DCMAKE_PROJECT_VERSION_MINOR=1 -DCMAKE_PROJECT_VERSION_PATCH=3 -DCMAKE_TARGET_NAME=floppy -DFLOPPY_LIBRARY=1 -ID:/dev/my/floppy/build/Debug -ID:/dev/my/floppy -ID:/dev/my/floppy/include -ID:/dev/my/floppy/src/c++ -isystem C:/Users/User/.conan2/p/fmtcdb79a57b9013/p/include -isystem C:/Users/User/.conan2/p/b/winap9939095afc6a5/p/include -g -std=c++20 -Wall -Wextra -Wpedantic -Werror -o CMakeFiles\floppy.dir\src\detail\rtti.cc.obj -c D:\dev\my\floppy\src\detail\rtti.cc";

fn floppy_database() -> CMakeCompileCommands {
    let mut commands = vec![record(
        "D:/dev/my/floppy/build/Debug",
        FLOPPY_COMMAND,
        r"D:\dev\my\floppy\src\detail\rtti.cc",
        r"CMakeFiles\floppy.dir\src\detail\rtti.cc.obj",
    )];
    for name in ["log", "fs", "io", "net", "str", "env"] {
        let file = format!(r"D:\dev\my\floppy\src\{}.cc", name);
        let output = format!(r"CMakeFiles\floppy.dir\src\{}.cc.obj", name);
        commands.push(record("D:/dev/my/floppy/build/Debug", FLOPPY_COMMAND, &file, &output));
    }
    CMakeCompileCommands { commands }
}

#[test]
fn test_parser() {
    let got_vec = CompileOptions::from_commands(&floppy_database());

    assert_eq!(got_vec.options.len(), 7);
    let got = &got_vec.options[0];
    assert_eq!(got.source, r#"D:\dev\my\floppy\src\detail\rtti.cc"#.to_string());
    assert_eq!(got.output, r#"CMakeFiles\floppy.dir\src\detail\rtti.cc.obj"#.to_string());
    assert_eq!(got.pwd, r#"D:/dev/my/floppy/build/Debug"#.to_string());
    assert_eq!(got.definitions.len(), 5);
    assert_eq!(got.definitions[0], ("CMAKE_PROJECT_VERSION_MAJOR".to_string(), "1".to_string()));
    assert_eq!(got.definitions[1], ("CMAKE_PROJECT_VERSION_MINOR".to_string(), "1".to_string()));
    assert_eq!(got.definitions[2], ("CMAKE_PROJECT_VERSION_PATCH".to_string(), "3".to_string()));
    assert_eq!(got.definitions[3], ("CMAKE_TARGET_NAME".to_string(), "floppy".to_string()));
    assert_eq!(got.definitions[4], ("FLOPPY_LIBRARY".to_string(), "1".to_string()));
    assert_eq!(got.includes.len(), 4);
    assert_eq!(got.includes[0], "D:/dev/my/floppy/build/Debug".to_string());
    assert_eq!(got.includes[1], "D:/dev/my/floppy".to_string());
    assert_eq!(got.includes[2], "D:/dev/my/floppy/include".to_string());
    assert_eq!(got.includes[3], "D:/dev/my/floppy/src/c++".to_string());
    assert_eq!(got.includes_system.len(), 2);
    assert_eq!(got.includes_system[0], "C:/Users/User/.conan2/p/fmtcdb79a57b9013/p/include".to_string());
    assert_eq!(got.includes_system[1], "C:/Users/User/.conan2/p/b/winap9939095afc6a5/p/include".to_string());
    assert_eq!(got.warnings.len(), 3);
    assert_eq!(got.warnings[0], "all".to_string());
    assert_eq!(got.warnings[1], "extra".to_string());
    assert_eq!(got.warnings[2], "pedantic".to_string());
    assert_eq!(got.warnings_as_errors, true);

    assert_eq!(got.as_argument_array(CompileOptionFlags::all()), [
      "-x", "c++", "-g",
      "-std=c++20",
      "-W", "all",
      "-W", "extra",
      "-W", "pedantic",
      "-W", "error",
      "-D", "CMAKE_PROJECT_VERSION_MAJOR=1",
      "-D", "CMAKE_PROJECT_VERSION_MINOR=1",
      "-D", "CMAKE_PROJECT_VERSION_PATCH=3",
      "-D", "CMAKE_TARGET_NAME=floppy",
      "-D", "FLOPPY_LIBRARY=1",
      "-I", "D:/dev/my/floppy/build/Debug",
      "-I", "D:/dev/my/floppy",
      "-I", "D:/dev/my/floppy/include",
      "-I", "D:/dev/my/floppy/src/c++",
      "-isystem", "C:/Users/User/.conan2/p/fmtcdb79a57b9013/p/include",
      "-isystem", "C:/Users/User/.conan2/p/b/winap9939095afc6a5/p/include"
    ]);

    let indexing = CompileOptionFlags::includes()
        .union(CompileOptionFlags::includes_system())
        .union(CompileOptionFlags::definitions())
        .union(CompileOptionFlags::standard());
    assert_eq!(got.as_argument_array(indexing), [
      "-x", "c++", "-g",
      "-std=c++20",
      "-D", "CMAKE_PROJECT_VERSION_MAJOR=1",
      "-D", "CMAKE_PROJECT_VERSION_MINOR=1",
      "-D", "CMAKE_PROJECT_VERSION_PATCH=3",
      "-D", "CMAKE_TARGET_NAME=floppy",
      "-D", "FLOPPY_LIBRARY=1",
      "-I", "D:/dev/my/floppy/build/Debug",
      "-I", "D:/dev/my/floppy",
      "-I", "D:/dev/my/floppy/include",
      "-I", "D:/dev/my/floppy/src/c++",
      "-isystem", "C:/Users/User/.conan2/p/fmtcdb79a57b9013/p/include",
      "-isystem", "C:/Users/User/.conan2/p/b/winap9939095afc6a5/p/include"
    ]);

    assert_eq!(
        got.as_argument_array(indexing),
        got.as_argument_array(
            CompileOptionFlags::all()
                .difference(CompileOptionFlags::warnings())
                .difference(CompileOptionFlags::warnings_as_errors())
        )
    );
    assert_eq!(
        got.as_argument_array(indexing),
        got.as_argument_array(CompileOptionFlags::required_for_indexing())
    );
}

#[test]
fn single_record_scenario() {
    let db = CMakeCompileCommands {
        commands: vec![record(
            "/work",
            "cc -x c++ -std=c++17 -Wall -Werror -DFOO=1 -Ibar -isystem /sys",
            "a.cc",
            "a.o",
        )],
    };
    let opts = CompileOptions::from_commands(&db);
    assert_eq!(opts.options.len(), 1);
    let o = &opts.options[0];
    assert_eq!(o.standard, "c++17");
    assert_eq!(o.warnings, strs(&["all"]));
    assert!(o.warnings_as_errors);
    assert_eq!(o.definitions, vec![pair("FOO", "1")]);
    assert_eq!(o.includes, strs(&["bar"]));
    assert_eq!(o.includes_system, strs(&["/sys"]));
    assert_eq!(o.pwd, "/work");
    assert_eq!(o.source, "a.cc");
    assert_eq!(o.output, "a.o");
    let args = o.as_argument_array(CompileOptionFlags::all());
    let expected = strs(&[
        "-x", "c++", "-g", "-std=c++17", "-W", "all", "-W", "error", "-D", "FOO=1", "-I", "bar",
        "-isystem", "/sys",
    ]);
    assert!(args.starts_with(&expected));
    assert_eq!(args, expected);
}

#[test]
fn test_exclusion_keeps_order() {
    let files = ["a.cc", "test_a.cc", "b.cc", "c.cc", "tests/d.cc", "e.cc", "f.cc"];
    let db = CMakeCompileCommands {
        commands: files.iter().map(|f| record("/w", "cc -c", f, "o")).collect(),
    };
    let mut opts = CompileOptions::from_commands(&db);
    let removed = opts.remove_tests();
    assert_eq!(removed, 2);
    assert_eq!(opts.options.len(), 5);
    let kept: Vec<&str> = opts.options.iter().map(|o| o.source.as_str()).collect();
    assert_eq!(kept, vec!["a.cc", "b.cc", "c.cc", "e.cc", "f.cc"]);
}

#[test]
fn test_exclusion_is_case_sensitive() {
    let db = CMakeCompileCommands {
        commands: vec![record("/w", "cc", "Test.cc", "o"), record("/w", "cc", "tes.cc", "o")],
    };
    let mut opts = CompileOptions::from_commands(&db);
    assert_eq!(opts.remove_tests(), 0);
    assert_eq!(opts.options.len(), 2);
}

#[test]
fn empty_database_and_command() {
    let mut opts = CompileOptions::from_commands(&CMakeCompileCommands { commands: vec![] });
    assert_eq!(opts.options.len(), 0);
    assert_eq!(opts.remove_tests(), 0);
    let o = from_cmd("");
    assert!(o.definitions.is_empty());
    assert!(o.includes.is_empty());
    assert!(o.includes_system.is_empty());
    assert!(o.warnings.is_empty());
    assert!(!o.warnings_as_errors);
    assert_eq!(o.standard, "c++20");
    assert_eq!(o.as_argument_array(CompileOptionFlags::all()), strs(&["-x", "c++", "-g", "-std=c++20"]));
}

#[test]
fn definitions_count_and_order() {
    let o = from_cmd("cc -DA=1 -DB= -DC -D=x -DD=1=2 -DA=3");
    assert_eq!(
        o.definitions,
        vec![pair("A", "1"), pair("B", ""), pair("", "x"), pair("D=1", "2"), pair("A", "3")]
    );
}

#[test]
fn definition_needs_leading_space() {
    let o = from_cmd("-DA=1\t-DB=2 -DC=3");
    assert_eq!(o.definitions, vec![pair("C", "3")]);
}

#[test]
fn warnings_drop_error_token() {
    let o = from_cmd("cc -Werror -Wall -Werror -Wextra");
    assert_eq!(o.warnings, strs(&["all", "extra"]));
    assert!(o.warnings_as_errors);
    let o = from_cmd("cc -Wall -Werror=format");
    assert_eq!(o.warnings, strs(&["all", "error=format"]));
    assert!(!o.warnings_as_errors);
    let o = from_cmd("cc -W -Wall");
    assert_eq!(o.warnings, strs(&["", "all"]));
}

#[test]
fn standard_default_and_first() {
    assert_eq!(from_cmd("cc -c a.cc").standard, "c++20");
    assert_eq!(from_cmd("cc -std=c++14 -std=c++17").standard, "c++14");
    assert_eq!(from_cmd("cc -std= -std=gnu++17").standard, "gnu++17");
    assert_eq!(from_cmd("cc -std=").standard, "c++20");
}

#[test]
fn system_paths_with_and_without_space() {
    let o = from_cmd("cc -isystem /a -isystem/b -isystem\t/c -isystem  /d");
    assert_eq!(o.includes_system, strs(&["/a", "/b", "/c", ""]));
    let o = from_cmd("cc -I/x -I -Iy");
    assert_eq!(o.includes, strs(&["/x", "", "y"]));
}

#[test]
fn unicode_whitespace_ends_values() {
    let o = from_cmd("cc -I/x\u{a0}-I/y -Ié/ü");
    assert_eq!(o.includes, strs(&["/x", "é/ü"]));
}

#[test]
fn arguments_deterministic() {
    let o = from_cmd("cc -std=c++17 -Wall -Werror -DX=1 -Ia -isystem b");
    for bits in [0u32, 1, 0x0c, 0x27, 0xe7, 0xff] {
        let f = CompileOptionFlags::from_bits_truncate(bits);
        assert_eq!(o.as_argument_array(f), o.as_argument_array(f));
    }
}

#[test]
fn indexing_flags_match_all_but_warnings() {
    let o = from_cmd("cc -std=c++17 -Wall -Wextra -Werror -DX=1 -DY=2 -Ia -isystem b");
    let no_warnings = CompileOptionFlags::all()
        .difference(CompileOptionFlags::warnings())
        .difference(CompileOptionFlags::warnings_as_errors());
    assert_eq!(
        o.as_argument_array(CompileOptionFlags::required_for_indexing()),
        o.as_argument_array(no_warnings)
    );
    assert_eq!(
        o.as_argument_array(CompileOptionFlags::required_for_indexing()),
        strs(&["-x", "c++", "-g", "-std=c++17", "-D", "X=1", "-D", "Y=2", "-I", "a", "-isystem", "b"])
    );
}

#[test]
fn argument_categories_by_flag() {
    let o = from_cmd("cc -std=c++11 -Wall -Werror -DX=1 -Ia -isystem b");
    assert_eq!(o.as_argument_array(CompileOptionFlags::empty()), strs(&["-x", "c++", "-g"]));
    assert_eq!(
        o.as_argument_array(CompileOptionFlags::warnings_as_errors()),
        strs(&["-x", "c++", "-g", "-W", "error"])
    );
    assert_eq!(
        o.as_argument_array(CompileOptionFlags::warnings()),
        strs(&["-x", "c++", "-g", "-W", "all"])
    );
    assert_eq!(
        o.as_argument_array(CompileOptionFlags::source().union(CompileOptionFlags::output())),
        strs(&["-x", "c++", "-g"])
    );
    let order = CompileOptionFlags::includes_system().union(CompileOptionFlags::standard());
    assert_eq!(
        o.as_argument_array(order),
        strs(&["-x", "c++", "-g", "-std=c++11", "-isystem", "b"])
    );
}

#[test]
fn indexing_arguments_append_extra_paths() {
    let o = from_cmd("cc -std=c++17 -Wall -Ia");
    let extra = Some(strs(&["/opt/x", "/opt/y"]));
    assert_eq!(
        o.indexing_arguments(&extra),
        strs(&["-x", "c++", "-g", "-std=c++17", "-I", "a", "-isystem", "/opt/x", "-isystem", "/opt/y"])
    );
    assert_eq!(o.indexing_arguments(&None), strs(&["-x", "c++", "-g", "-std=c++17", "-I", "a"]));
}

#[test]
fn flag_set_operations() {
    let all = CompileOptionFlags::all();
    assert_eq!(all.bits(), 0xff);
    assert_eq!(CompileOptionFlags::required_for_indexing().bits(), 0x27);
    assert!(all.contains(CompileOptionFlags::required_for_indexing()));
    assert!(!CompileOptionFlags::required_for_indexing().contains(all));
    assert!(CompileOptionFlags::empty().is_empty());
    assert_eq!(CompileOptionFlags::from_bits_truncate(0x1ff).bits(), 0xff);
    assert_eq!(
        CompileOptionFlags::warnings().intersection(all).bits(),
        CompileOptionFlags::warnings().bits()
    );
    let a = CompileOptionFlags::includes().union(CompileOptionFlags::warnings());
    let b = CompileOptionFlags::warnings().union(CompileOptionFlags::includes());
    assert_eq!(a, b);
}

#[test]
fn default_option() {
    let o = CompileOption::default();
    assert_eq!(o.standard, "c++20");
    assert!(o.definitions.is_empty() && o.warnings.is_empty() && !o.warnings_as_errors);
    assert!(CompileOptions::default().options.is_empty());
}

#[test]
fn path_checks() {
    assert_eq!(check_file("db.json", PathKind::File), Ok(()));
    assert_eq!(check_file("db.json", PathKind::Missing), Err(OptionsError::NotFound("db.json".to_string())));
    assert_eq!(check_file("build", PathKind::Directory), Err(OptionsError::NotAFile("build".to_string())));
    assert_eq!(check_directory("build", PathKind::Directory), Ok(()));
    assert_eq!(check_directory("build", PathKind::Missing), Err(OptionsError::NotFound("build".to_string())));
    assert_eq!(check_directory("db.json", PathKind::File), Err(OptionsError::NotADirectory("db.json".to_string())));
    assert_eq!(check_directory("x", PathKind::Other), Err(OptionsError::NotADirectory("x".to_string())));
}

#[test]
fn substring_search() {
    assert!(contains_str("src/test/a.cc", "test"));
    assert!(contains_str("test", "test"));
    assert!(!contains_str("tes", "test"));
    assert!(contains_str("abc", ""));
}

#[test]
fn empty_standard_adds_nothing() {
    let mut o = from_cmd("cc -Wall -DX=1");
    o.standard = String::new();
    let args = o.as_argument_array(CompileOptionFlags::all());
    assert!(!args.iter().any(|a| a.starts_with("-std=")));
    assert_eq!(args, strs(&["-x", "c++", "-g", "-W", "all", "-D", "X=1"]));
    assert_eq!(
        o.as_argument_array(CompileOptionFlags::standard()),
        strs(&["-x", "c++", "-g"])
    );
}

#[test]
fn database_location() {
    let dir = "build";
    let inner = "build/compile_commands.json";
    assert_eq!(locate_database(dir, PathKind::Directory, inner, PathKind::File), Ok(inner.to_string()));
    assert_eq!(
        locate_database(dir, PathKind::Directory, inner, PathKind::Missing),
        Err(OptionsError::NotFound(inner.to_string()))
    );
    assert_eq!(
        locate_database(dir, PathKind::Directory, inner, PathKind::Directory),
        Err(OptionsError::NotAFile(inner.to_string()))
    );
    assert_eq!(locate_database("db.json", PathKind::File, "x", PathKind::Missing), Ok("db.json".to_string()));
    assert_eq!(
        locate_database("db.json", PathKind::Missing, "x", PathKind::File),
        Err(OptionsError::NotFound("db.json".to_string()))
    );
    assert_eq!(
        locate_database("dev", PathKind::Other, "x", PathKind::File),
        Err(OptionsError::NotAFile("dev".to_string()))
    );
}
