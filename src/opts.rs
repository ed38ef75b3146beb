//! Compile options reconstructed from compilation database records.
use vstd::prelude::*;
use crate::flags::{
    CompileOptionFlags, ALL, DEFINITIONS, INCLUDES, INCLUDES_SYSTEM, STANDARD, WARNINGS,
    WARNINGS_AS_ERRORS, REQUIRED_FOR_INDEXING,
};
use crate::scan::{chars_of, flag_values, flag_values_of, views};

verus! {

/// The language standard used when a command names none.
pub const DEFAULT_STANDARD: &'static str = "c++20";

/// The file name of a compilation database inside a build directory.
pub const DATABASE_FILE: &'static str = "compile_commands.json";

/// One record of a compilation database.
pub struct CMakeCompileCommand {
    pub directory: String,
    pub command: String,
    pub file: String,
    pub output: String,
}

/// A whole compilation database, in file order.
pub struct CMakeCompileCommands {
    pub commands: Vec<CMakeCompileCommand>,
}

/// The structured form of one compiler invocation.
pub struct CompileOption {
    pub pwd: String,
    pub definitions: Vec<(String, String)>,
    pub includes: Vec<String>,
    pub includes_system: Vec<String>,
    pub standard: String,
    pub warnings: Vec<String>,
    pub warnings_as_errors: bool,
    pub source: String,
    pub output: String,
}

/// The compile options of a project, in database order.
pub struct CompileOptions {
    pub options: Vec<CompileOption>,
}

/// The views of a sequence of definitions.
pub open spec fn def_views(v: Seq<(String, String)>) -> Seq<(Seq<char>, Seq<char>)> {
    v.map_values(|p: (String, String)| (p.0@, p.1@))
}

/// Index of the last `=` in `t`, or -1.
pub open spec fn last_eq(t: Seq<char>) -> int
    decreases t.len(),
{
    if t.len() == 0 {
        -1
    } else if t.last() == '=' {
        t.len() - 1
    } else {
        last_eq(t.drop_last())
    }
}

/// The `(name, value)` pairs of the definition tokens that hold a `=`; the
/// name runs up to the last `=`.
pub open spec fn def_pairs(ts: Seq<Seq<char>>) -> Seq<(Seq<char>, Seq<char>)>
    decreases ts.len(),
{
    if ts.len() == 0 {
        seq![]
    } else {
        let t = ts.last();
        let k = last_eq(t);
        let rest = def_pairs(ts.drop_last());
        if k >= 0 {
            rest.push((t.subrange(0, k), t.subrange(k + 1, t.len() as int)))
        } else {
            rest
        }
    }
}

/// `ts` without the token `error`.
pub open spec fn without_error(ts: Seq<Seq<char>>) -> Seq<Seq<char>>
    decreases ts.len(),
{
    if ts.len() == 0 {
        seq![]
    } else if ts.last() == "error"@ {
        without_error(ts.drop_last())
    } else {
        without_error(ts.drop_last()).push(ts.last())
    }
}

/// The first non-empty token of `ts`, if any.
pub open spec fn first_nonempty(ts: Seq<Seq<char>>) -> Option<Seq<char>>
    decreases ts.len(),
{
    if ts.len() == 0 {
        None
    } else if ts[0].len() > 0 {
        Some(ts[0])
    } else {
        first_nonempty(ts.drop_first())
    }
}

pub open spec fn definitions_of(cmd: Seq<char>) -> Seq<(Seq<char>, Seq<char>)> {
    def_pairs(flag_values(cmd, 0, "-D"@, false))
}

pub open spec fn includes_of(cmd: Seq<char>) -> Seq<Seq<char>> {
    flag_values(cmd, 0, "-I"@, false)
}

pub open spec fn system_includes_of(cmd: Seq<char>) -> Seq<Seq<char>> {
    flag_values(cmd, 0, "-isystem"@, true)
}

/// Every `-W` value, `error` among them.
pub open spec fn warning_tokens(cmd: Seq<char>) -> Seq<Seq<char>> {
    flag_values(cmd, 0, "-W"@, false)
}

pub open spec fn warnings_of(cmd: Seq<char>) -> Seq<Seq<char>> {
    without_error(warning_tokens(cmd))
}

pub open spec fn warnings_as_errors_of(cmd: Seq<char>) -> bool {
    warning_tokens(cmd).contains("error"@)
}

/// The first non-empty `-std=` value, else the default standard.
pub open spec fn standard_of(cmd: Seq<char>) -> Seq<char> {
    match first_nonempty(flag_values(cmd, 0, "-std="@, false)) {
        Some(v) => v,
        None => DEFAULT_STANDARD@,
    }
}

impl CompileOption {
    /// `self` is the reconstruction of `rec`.
    pub open spec fn reconstructs(&self, rec: &CMakeCompileCommand) -> bool {
        &&& self.pwd@ == rec.directory@
        &&& def_views(self.definitions@) == definitions_of(rec.command@)
        &&& views(self.includes@) == includes_of(rec.command@)
        &&& views(self.includes_system@) == system_includes_of(rec.command@)
        &&& self.standard@ == standard_of(rec.command@)
        &&& views(self.warnings@) == warnings_of(rec.command@)
        &&& self.warnings_as_errors == warnings_as_errors_of(rec.command@)
        &&& self.source@ == rec.file@
        &&& self.output@ == rec.output@
    }

    /// `self` and `o` hold the same values.
    pub open spec fn same_as(&self, o: &CompileOption) -> bool {
        &&& self.pwd@ == o.pwd@
        &&& def_views(self.definitions@) == def_views(o.definitions@)
        &&& views(self.includes@) == views(o.includes@)
        &&& views(self.includes_system@) == views(o.includes_system@)
        &&& self.standard@ == o.standard@
        &&& views(self.warnings@) == views(o.warnings@)
        &&& self.warnings_as_errors == o.warnings_as_errors
        &&& self.source@ == o.source@
        &&& self.output@ == o.output@
    }
}

fn split_definition(t: &String) -> (r: Option<(String, String)>)
    ensures
        last_eq(t@) < 0 ==> r is None,
        last_eq(t@) >= 0 ==> (r matches Some(p) && p.0@ == t@.subrange(0, last_eq(t@)) && p.1@
            == t@.subrange(last_eq(t@) + 1, t@.len() as int)),
{
    let cs = chars_of(t.as_str());
    let mut k: usize = cs.len();
    assert(t@.subrange(0, k as int) =~= t@);
    while k > 0 && cs[k - 1] != '='
        invariant
            cs@ == t@,
            k <= cs@.len(),
            last_eq(t@) == last_eq(t@.subrange(0, k as int)),
        decreases k,
    {
        assert(t@.subrange(0, k as int).drop_last() =~= t@.subrange(0, k - 1));
        k = k - 1;
    }
    if k == 0 {
        assert(t@.subrange(0, 0) =~= Seq::<char>::empty());
        None
    } else {
        let name = t.as_str().substring_char(0, k - 1).to_owned();
        let value = t.as_str().substring_char(k, cs.len()).to_owned();
        Some((name, value))
    }
}

impl CompileOption {
    /// Reconstructs the options of one database record from its command line.
    pub fn from_command(that: &CMakeCompileCommand) -> (r: CompileOption)
        ensures
            r.reconstructs(that),
    {
        let cmd = that.command.as_str();
        let def_tokens = flag_values_of(cmd, "-D", false);
        let mut definitions: Vec<(String, String)> = Vec::new();
        let mut k: usize = 0;
        while k < def_tokens.len()
            invariant
                k <= def_tokens@.len(),
                views(def_tokens@) == flag_values(cmd@, 0, "-D"@, false),
                def_views(definitions@) == def_pairs(views(def_tokens@).subrange(0, k as int)),
            decreases def_tokens@.len() - k,
        {
            let ghost prev = definitions@;
            let split = split_definition(&def_tokens[k]);
            assert(views(def_tokens@).subrange(0, k + 1).drop_last() =~= views(
                def_tokens@,
            ).subrange(0, k as int));
            match split {
                Some(p) => {
                    definitions.push(p);
                    assert(def_views(definitions@) =~= def_views(prev).push((p.0@, p.1@)));
                },
                None => {},
            }
            k = k + 1;
        }
        assert(views(def_tokens@).subrange(0, k as int) =~= views(def_tokens@));

        let includes = flag_values_of(cmd, "-I", false);
        let includes_system = flag_values_of(cmd, "-isystem", true);

        let tokens = flag_values_of(cmd, "-W", false);
        let error = String::from_str("error");
        let mut warnings: Vec<String> = Vec::new();
        let mut warnings_as_errors = false;
        let mut k: usize = 0;
        while k < tokens.len()
            invariant
                k <= tokens@.len(),
                error@ == "error"@,
                views(tokens@) == warning_tokens(cmd@),
                views(warnings@) == without_error(views(tokens@).subrange(0, k as int)),
                warnings_as_errors == views(tokens@).subrange(0, k as int).contains("error"@),
            decreases tokens@.len() - k,
        {
            let ghost prev = warnings@;
            let ghost seen = views(tokens@).subrange(0, k as int);
            let ghost next = views(tokens@).subrange(0, k + 1);
            assert(next.drop_last() =~= seen);
            assert(next =~= seen.push(tokens@[k as int]@));
            if tokens[k].eq(&error) {
                warnings_as_errors = true;
                assert(next.contains("error"@)) by {
                    assert(next[k as int] == "error"@);
                }
            } else {
                warnings.push(tokens[k].clone());
                assert(views(warnings@) =~= views(prev).push(tokens@[k as int]@));
                assert(next.contains("error"@) == seen.contains("error"@)) by {
                    if next.contains("error"@) {
                        let j = choose|j: int| 0 <= j < next.len() && next[j] == "error"@;
                        assert(seen[j] == "error"@);
                    }
                    if seen.contains("error"@) {
                        let j = choose|j: int| 0 <= j < seen.len() && seen[j] == "error"@;
                        assert(next[j] == "error"@);
                    }
                }
            }
            k = k + 1;
        }
        assert(views(tokens@).subrange(0, k as int) =~= views(tokens@));

        let std_values = flag_values_of(cmd, "-std=", false);
        let mut standard = String::from_str(DEFAULT_STANDARD);
        let mut k: usize = 0;
        assert(views(std_values@).subrange(0, std_values@.len() as int) =~= views(std_values@));
        while k < std_values.len()
            invariant
                k <= std_values@.len(),
                cmd@ == that.command@,
                views(std_values@) == flag_values(cmd@, 0, "-std="@, false),
                def_views(definitions@) == definitions_of(cmd@),
                views(includes@) == includes_of(cmd@),
                views(includes_system@) == system_includes_of(cmd@),
                views(warnings@) == warnings_of(cmd@),
                warnings_as_errors == warnings_as_errors_of(cmd@),
                standard@ == DEFAULT_STANDARD@,
                first_nonempty(views(std_values@)) == first_nonempty(
                    views(std_values@).subrange(k as int, std_values@.len() as int),
                ),
            decreases std_values@.len() - k,
        {
            let ghost rest = views(std_values@).subrange(k as int, std_values@.len() as int);
            assert(rest.drop_first() =~= views(std_values@).subrange(
                k + 1,
                std_values@.len() as int,
            ));
            if std_values[k].as_str().unicode_len() > 0 {
                standard = std_values[k].clone();
                assert(rest.len() > 0);
                assert(rest[0] == std_values@[k as int]@);
                assert(first_nonempty(rest) == Some(rest[0]));
                return CompileOption {
                    pwd: that.directory.clone(),
                    definitions,
                    includes,
                    includes_system,
                    standard,
                    warnings,
                    warnings_as_errors,
                    source: that.file.clone(),
                    output: that.output.clone(),
                };
            }
            k = k + 1;
        }
        assert(views(std_values@).subrange(k as int, std_values@.len() as int) =~= Seq::<
            Seq<char>,
        >::empty());
        CompileOption {
            pwd: that.directory.clone(),
            definitions,
            includes,
            includes_system,
            standard,
            warnings,
            warnings_as_errors,
            source: that.file.clone(),
            output: that.output.clone(),
        }
    }
}

/// `flag` followed by each of `vs`, one pair per value.
pub open spec fn flag_pairs(flag: Seq<char>, vs: Seq<Seq<char>>) -> Seq<Seq<char>>
    decreases vs.len(),
{
    if vs.len() == 0 {
        seq![]
    } else {
        flag_pairs(flag, vs.drop_last()) + seq![flag, vs.last()]
    }
}

/// `-D` followed by `NAME=VALUE` for each definition.
pub open spec fn def_args(ds: Seq<(Seq<char>, Seq<char>)>) -> Seq<Seq<char>>
    decreases ds.len(),
{
    if ds.len() == 0 {
        seq![]
    } else {
        def_args(ds.drop_last()) + seq!["-D"@, ds.last().0 + "="@ + ds.last().1]
    }
}

/// The argument list that `o` gives for the categories of `f`.
pub open spec fn arguments_of(o: &CompileOption, f: CompileOptionFlags) -> Seq<Seq<char>> {
    seq!["-x"@, "c++"@, "-g"@] + (if f.has(STANDARD) && o.standard@.len() > 0 {
        seq!["-std="@ + o.standard@]
    } else {
        seq![]
    }) + (if f.has(WARNINGS) {
        flag_pairs("-W"@, views(o.warnings@))
    } else {
        seq![]
    }) + (if f.has(WARNINGS_AS_ERRORS) && o.warnings_as_errors {
        seq!["-W"@, "error"@]
    } else {
        seq![]
    }) + (if f.has(DEFINITIONS) {
        def_args(def_views(o.definitions@))
    } else {
        seq![]
    }) + (if f.has(INCLUDES) {
        flag_pairs("-I"@, views(o.includes@))
    } else {
        seq![]
    }) + (if f.has(INCLUDES_SYSTEM) {
        flag_pairs("-isystem"@, views(o.includes_system@))
    } else {
        seq![]
    })
}

fn push_flag_pairs(args: &mut Vec<String>, flag: &str, vs: &Vec<String>)
    ensures
        views(final(args)@) == views(old(args)@) + flag_pairs(flag@, views(vs@)),
{
    let ghost start = views(args@);
    let mut k: usize = 0;
    assert(views(vs@).subrange(0, 0) =~= Seq::<Seq<char>>::empty());
    assert(views(args@) =~= start + flag_pairs(flag@, views(vs@).subrange(0, 0)));
    while k < vs.len()
        invariant
            k <= vs@.len(),
            views(args@) == start + flag_pairs(flag@, views(vs@).subrange(0, k as int)),
        decreases vs@.len() - k,
    {
        let ghost prev = views(args@);
        assert(views(vs@).subrange(0, k + 1).drop_last() =~= views(vs@).subrange(0, k as int));
        args.push(String::from_str(flag));
        args.push(vs[k].clone());
        assert(views(args@) =~= prev + seq![flag@, vs@[k as int]@]);
        k = k + 1;
    }
    assert(views(vs@).subrange(0, k as int) =~= views(vs@));
}

fn push_definitions(args: &mut Vec<String>, ds: &Vec<(String, String)>)
    ensures
        views(final(args)@) == views(old(args)@) + def_args(def_views(ds@)),
{
    let ghost start = views(args@);
    let mut k: usize = 0;
    assert(def_views(ds@).subrange(0, 0) =~= Seq::<(Seq<char>, Seq<char>)>::empty());
    assert(views(args@) =~= start + def_args(def_views(ds@).subrange(0, 0)));
    while k < ds.len()
        invariant
            k <= ds@.len(),
            views(args@) == start + def_args(def_views(ds@).subrange(0, k as int)),
        decreases ds@.len() - k,
    {
        let ghost prev = views(args@);
        assert(def_views(ds@).subrange(0, k + 1).drop_last() =~= def_views(ds@).subrange(
            0,
            k as int,
        ));
        let d = ds[k].0.clone().concat("=").concat(ds[k].1.as_str());
        args.push(String::from_str("-D"));
        args.push(d);
        assert(views(args@) =~= prev + seq!["-D"@, ds@[k as int].0@ + "="@ + ds@[k as int].1@]);
        k = k + 1;
    }
    assert(def_views(ds@).subrange(0, k as int) =~= def_views(ds@));
}

impl CompileOption {
    /// The compiler arguments for the categories in `flags`: the fixed prefix
    /// `-x c++ -g`, then standard, warnings, warnings as errors, definitions,
    /// include paths and system include paths, in that order. A category that
    /// is empty in the option adds nothing.
    pub fn as_argument_array(&self, flags: CompileOptionFlags) -> (r: Vec<String>)
        ensures
            views(r@) == arguments_of(self, flags),
    {
        let mut args: Vec<String> = Vec::new();
        args.push(String::from_str("-x"));
        args.push(String::from_str("c++"));
        args.push(String::from_str("-g"));
        let ghost a0 = views(args@);
        assert(a0 =~= seq!["-x"@, "c++"@, "-g"@]);
        if flags.has_bit(STANDARD) && self.standard.as_str().unicode_len() > 0 {
            args.push(String::from_str("-std=").concat(self.standard.as_str()));
        }
        let ghost a1 = views(args@);
        assert(a1 =~= a0 + (if flags.has(STANDARD) && self.standard@.len() > 0 {
            seq!["-std="@ + self.standard@]
        } else {
            seq![]
        }));
        if flags.has_bit(WARNINGS) {
            push_flag_pairs(&mut args, "-W", &self.warnings);
        }
        let ghost a2 = views(args@);
        assert(a2 =~= a1 + (if flags.has(WARNINGS) {
            flag_pairs("-W"@, views(self.warnings@))
        } else {
            seq![]
        }));
        if flags.has_bit(WARNINGS_AS_ERRORS) && self.warnings_as_errors {
            args.push(String::from_str("-W"));
            args.push(String::from_str("error"));
        }
        let ghost a3 = views(args@);
        assert(a3 =~= a2 + (if flags.has(WARNINGS_AS_ERRORS) && self.warnings_as_errors {
            seq!["-W"@, "error"@]
        } else {
            seq![]
        }));
        if flags.has_bit(DEFINITIONS) {
            push_definitions(&mut args, &self.definitions);
        }
        let ghost a4 = views(args@);
        assert(a4 =~= a3 + (if flags.has(DEFINITIONS) {
            def_args(def_views(self.definitions@))
        } else {
            seq![]
        }));
        if flags.has_bit(INCLUDES) {
            push_flag_pairs(&mut args, "-I", &self.includes);
        }
        let ghost a5 = views(args@);
        assert(a5 =~= a4 + (if flags.has(INCLUDES) {
            flag_pairs("-I"@, views(self.includes@))
        } else {
            seq![]
        }));
        if flags.has_bit(INCLUDES_SYSTEM) {
            push_flag_pairs(&mut args, "-isystem", &self.includes_system);
        }
        assert(views(args@) =~= a5 + (if flags.has(INCLUDES_SYSTEM) {
            flag_pairs("-isystem"@, views(self.includes_system@))
        } else {
            seq![]
        }));
        args
    }
}

/// The `-D` tokens that hold a `=`.
pub open spec fn well_formed_defs(ts: Seq<Seq<char>>) -> Seq<Seq<char>> {
    ts.filter(|t: Seq<char>| t.contains('='))
}

proof fn lemma_last_eq(t: Seq<char>)
    ensures
        last_eq(t) >= 0 <==> t.contains('='),
        -1 <= last_eq(t) < t.len(),
        last_eq(t) >= 0 ==> t[last_eq(t)] == '=',
        forall|j: int| last_eq(t) < j < t.len() ==> t[j] != '=',
    decreases t.len(),
{
    if t.len() > 0 && t.last() != '=' {
        let u = t.drop_last();
        lemma_last_eq(u);
        assert forall|j: int| last_eq(t) < j < t.len() implies t[j] != '=' by {
            if j < u.len() {
                assert(u[j] == t[j]);
            }
        }
        if t.contains('=') {
            let j = choose|j: int| 0 <= j < t.len() && t[j] == '=';
            assert(u[j] == '=');
        }
        if u.contains('=') {
            let j = choose|j: int| 0 <= j < u.len() && u[j] == '=';
            assert(t[j] == '=');
        }
    }
    if t.len() > 0 && t.last() == '=' {
        assert(t[t.len() - 1] == '=');
    }
}

proof fn lemma_def_pairs(ts: Seq<Seq<char>>)
    ensures
        def_pairs(ts).len() == well_formed_defs(ts).len(),
        forall|i: int|
            0 <= i < def_pairs(ts).len() ==> well_formed_defs(ts)[i] == def_pairs(ts)[i].0 + seq![
                '=',
            ] + def_pairs(ts)[i].1 && !(#[trigger] def_pairs(ts)[i]).1.contains('='),
    decreases ts.len(),
{
    reveal(Seq::filter);
    if ts.len() > 0 {
        lemma_def_pairs(ts.drop_last());
        let t = ts.last();
        lemma_last_eq(t);
        let k = last_eq(t);
        if k >= 0 {
            let v = t.subrange(k + 1, t.len() as int);
            assert(t =~= t.subrange(0, k) + seq!['='] + v);
            if v.contains('=') {
                let j = choose|j: int| 0 <= j < v.len() && v[j] == '=';
                assert(t[k + 1 + j] == '=');
            }
        }
    }
}

/// The definitions of a command are its `-D` tokens that hold a `=`, one for
/// one and in order: each token reads `NAME=VALUE`, where `VALUE` holds no
/// `=`.
pub proof fn lemma_definitions_match_tokens(cmd: Seq<char>)
    ensures
        definitions_of(cmd).len() == well_formed_defs(flag_values(cmd, 0, "-D"@, false)).len(),
        forall|i: int|
            0 <= i < definitions_of(cmd).len() ==> well_formed_defs(
                flag_values(cmd, 0, "-D"@, false),
            )[i] == definitions_of(cmd)[i].0 + seq!['='] + definitions_of(cmd)[i].1
                && !(#[trigger] definitions_of(cmd)[i]).1.contains('='),
{
    lemma_def_pairs(flag_values(cmd, 0, "-D"@, false));
}

proof fn lemma_unique_split(n: Seq<char>, v: Seq<char>, a: Seq<char>, b: Seq<char>)
    requires
        n + seq!['='] + v == a + seq!['='] + b,
        !v.contains('='),
        !b.contains('='),
    ensures
        a == n,
        b == v,
{
    let t = n + seq!['='] + v;
    let n1 = n + seq!['='];
    let a1 = a + seq!['='];
    assert(n1.len() == n.len() + 1 && n1[n.len() as int] == '=');
    assert(a1.len() == a.len() + 1 && a1[a.len() as int] == '=');
    assert(t == a1 + b);
    assert(t[n.len() as int] == '=');
    assert(t[a.len() as int] == '=');
    if a.len() < n.len() {
        let k = n.len() - a1.len();
        assert(t.len() == a1.len() + b.len());
        assert(0 <= k < b.len());
        assert((a1 + b)[n.len() as int] == b[k]);
        assert(b.contains('='));
    }
    if n.len() < a.len() {
        let k = a.len() - n1.len();
        assert(t.len() == n1.len() + v.len());
        assert(0 <= k < v.len());
        assert((n1 + v)[a.len() as int] == v[k]);
        assert(v.contains('='));
    }
    assert(a =~= t.subrange(0, a.len() as int));
    assert(n =~= t.subrange(0, n.len() as int));
    assert(b =~= t.subrange(a.len() as int + 1, t.len() as int));
    assert(v =~= t.subrange(n.len() as int + 1, t.len() as int));
}

/// A well-formed definition token `NAME=VALUE`, whose name and value hold no
/// `=`, gives exactly the definition `(NAME, VALUE)`, at its place among the
/// well-formed tokens.
pub proof fn lemma_definition_split(cmd: Seq<char>, i: int, name: Seq<char>, value: Seq<char>)
    requires
        0 <= i < well_formed_defs(flag_values(cmd, 0, "-D"@, false)).len(),
        well_formed_defs(flag_values(cmd, 0, "-D"@, false))[i] == name + seq!['='] + value,
        !name.contains('='),
        !value.contains('='),
    ensures
        definitions_of(cmd)[i] == (name, value),
{
    lemma_definitions_match_tokens(cmd);
    let d = definitions_of(cmd)[i];
    lemma_unique_split(name, value, d.0, d.1);
}

proof fn lemma_without_error(ts: Seq<Seq<char>>)
    ensures
        !without_error(ts).contains("error"@),
    decreases ts.len(),
{
    if ts.len() > 0 {
        lemma_without_error(ts.drop_last());
        let w = without_error(ts.drop_last());
        if ts.last() != "error"@ {
            if w.push(ts.last()).contains("error"@) {
                let j = choose|j: int| 0 <= j < w.len() + 1 && w.push(ts.last())[j] == "error"@;
                assert(j < w.len() ==> w[j] == "error"@);
            }
        }
    }
}

/// The warnings of a command never hold `error`; warnings are treated as
/// errors exactly when `error` is among its `-W` values.
pub proof fn lemma_warnings_exclude_error(cmd: Seq<char>)
    ensures
        !warnings_of(cmd).contains("error"@),
        warnings_as_errors_of(cmd) <==> flag_values(cmd, 0, "-W"@, false).contains("error"@),
{
    lemma_without_error(warning_tokens(cmd));
}

proof fn lemma_first_nonempty(ts: Seq<Seq<char>>)
    ensures
        (forall|k: int| 0 <= k < ts.len() ==> (#[trigger] ts[k]).len() == 0) ==> first_nonempty(ts)
            is None,
        forall|k: int|
            0 <= k < ts.len() && (#[trigger] ts[k]).len() > 0 && (forall|j: int|
                0 <= j < k ==> ts[j].len() == 0) ==> first_nonempty(ts) == Some(ts[k]),
    decreases ts.len(),
{
    if ts.len() > 0 {
        let u = ts.drop_first();
        lemma_first_nonempty(u);
        assert forall|k: int|
            0 <= k < ts.len() && (#[trigger] ts[k]).len() > 0 && (forall|j: int|
                0 <= j < k ==> ts[j].len() == 0) implies first_nonempty(ts) == Some(ts[k]) by {
            if k > 0 {
                assert(ts[0].len() == 0);
                assert(u[k - 1] == ts[k]);
                assert forall|j: int| 0 <= j < k - 1 implies u[j].len() == 0 by {
                    assert(u[j] == ts[j + 1]);
                }
            }
        }
        if forall|k: int| 0 <= k < ts.len() ==> (#[trigger] ts[k]).len() == 0 {
            assert(ts[0].len() == 0);
            assert forall|k: int| 0 <= k < u.len() implies (#[trigger] u[k]).len() == 0 by {
                assert(u[k] == ts[k + 1]);
            }
        }
    }
}

/// Without a non-empty `-std=` value the standard is the default one; with
/// several, the first one wins.
pub proof fn lemma_standard_first_or_default(cmd: Seq<char>)
    ensures
        ({
            let vs = flag_values(cmd, 0, "-std="@, false);
            &&& (forall|k: int| 0 <= k < vs.len() ==> (#[trigger] vs[k]).len() == 0) ==> standard_of(
                cmd,
            ) == DEFAULT_STANDARD@
            &&& forall|k: int|
                0 <= k < vs.len() && (#[trigger] vs[k]).len() > 0 && (forall|j: int|
                    0 <= j < k ==> vs[j].len() == 0) ==> standard_of(cmd) == vs[k]
        }),
{
    lemma_first_nonempty(flag_values(cmd, 0, "-std="@, false));
}

/// The argument list depends on nothing but the option's values and the
/// categories asked for: equal inputs give equal lists.
pub proof fn lemma_arguments_deterministic(
    a: &CompileOption,
    b: &CompileOption,
    f: CompileOptionFlags,
    g: CompileOptionFlags,
)
    requires
        a.same_as(b),
        f.spec_bits() == g.spec_bits(),
    ensures
        arguments_of(a, f) == arguments_of(b, g),
{
}

/// A union of categories gives the same arguments in either order.
pub proof fn lemma_union_order_irrelevant(
    o: &CompileOption,
    f: CompileOptionFlags,
    g: CompileOptionFlags,
    fg: CompileOptionFlags,
    gf: CompileOptionFlags,
)
    requires
        fg.spec_bits() == f.spec_bits() | g.spec_bits(),
        gf.spec_bits() == g.spec_bits() | f.spec_bits(),
    ensures
        arguments_of(o, fg) == arguments_of(o, gf),
{
    let x = f.spec_bits();
    let y = g.spec_bits();
    assert(x | y == y | x) by (bit_vector);
}

/// The indexing categories give the same arguments as every category but
/// the two warning ones.
pub proof fn lemma_indexing_is_all_but_warnings(
    o: &CompileOption,
    indexing: CompileOptionFlags,
    no_warnings: CompileOptionFlags,
)
    requires
        indexing.spec_bits() == REQUIRED_FOR_INDEXING,
        no_warnings.spec_bits() == ALL & !WARNINGS & !WARNINGS_AS_ERRORS,
    ensures
        arguments_of(o, indexing) == arguments_of(o, no_warnings),
{
    let x = indexing.spec_bits();
    let y = no_warnings.spec_bits();
    assert(x == 0x27u32 && y == 0xffu32 & !0x08u32 & !0x10u32 ==> (x & 0x01 != 0) == (y & 0x01 != 0)
        && (x & 0x02 != 0) == (y & 0x02 != 0) && (x & 0x04 != 0) == (y & 0x04 != 0) && (x & 0x08
        != 0) == (y & 0x08 != 0) && (x & 0x10 != 0) == (y & 0x10 != 0) && (x & 0x20 != 0) == (y
        & 0x20 != 0)) by (bit_vector);
}

/// What a file system path names.
#[derive(Clone, Copy, Debug, PartialEq, Eq)]
pub enum PathKind {
    Missing,
    File,
    Directory,
    Other,
}

/// Why a set of compile options could not be built.
#[derive(Debug, PartialEq, Eq)]
pub enum OptionsError {
    NotFound(String),
    NotAFile(String),
    NotADirectory(String),
    MalformedDatabase(String),
}

/// Accepts a directory: `NotFound` when the path is missing, `NotADirectory` when it names something else.
pub fn check_directory(path: &str, kind: PathKind) -> (r: Result<(), OptionsError>)
    ensures
        kind == PathKind::Directory <==> r is Ok,
        kind == PathKind::Missing <==> (r matches Err(OptionsError::NotFound(p)) && p@ == path@),
        (kind == PathKind::File || kind == PathKind::Other) <==> (r matches Err(
            OptionsError::NotADirectory(p),
        ) && p@ == path@),
{
    match kind {
        PathKind::Directory => Ok(()),
        PathKind::Missing => Err(OptionsError::NotFound(path.to_owned())),
        _ => Err(OptionsError::NotADirectory(path.to_owned())),
    }
}

/// Accepts a regular file: `NotFound` when the path is missing,
/// `NotAFile` when it names something else.
pub fn check_file(path: &str, kind: PathKind) -> (r: Result<(), OptionsError>)
    ensures
        kind == PathKind::File <==> r is Ok,
        kind == PathKind::Missing <==> (r matches Err(OptionsError::NotFound(p)) && p@ == path@),
        (kind == PathKind::Directory || kind == PathKind::Other) <==> (r matches Err(
            OptionsError::NotAFile(p),
        ) && p@ == path@),
{
    match kind {
        PathKind::File => Ok(()),
        PathKind::Missing => Err(OptionsError::NotFound(path.to_owned())),
        _ => Err(OptionsError::NotAFile(path.to_owned())),
    }
}

/// Which file to read the database from. When `input` is a directory, the
/// database is `in_dir` (the database file inside it) and must be a regular
/// file; otherwise `input` itself must be a regular file.
pub fn locate_database(input: &str, input_kind: PathKind, in_dir: &str, in_dir_kind: PathKind) -> (r:
    Result<String, OptionsError>)
    ensures
        input_kind == PathKind::Directory ==> match r {
            Ok(p) => in_dir_kind == PathKind::File && p@ == in_dir@,
            Err(OptionsError::NotFound(p)) => in_dir_kind == PathKind::Missing && p@ == in_dir@,
            Err(OptionsError::NotAFile(p)) => (in_dir_kind == PathKind::Directory || in_dir_kind
                == PathKind::Other) && p@ == in_dir@,
            _ => false,
        },
        input_kind != PathKind::Directory ==> match r {
            Ok(p) => input_kind == PathKind::File && p@ == input@,
            Err(OptionsError::NotFound(p)) => input_kind == PathKind::Missing && p@ == input@,
            Err(OptionsError::NotAFile(p)) => input_kind == PathKind::Other && p@ == input@,
            _ => false,
        },
{
    match input_kind {
        PathKind::Directory => match check_file(in_dir, in_dir_kind) {
            Ok(()) => Ok(in_dir.to_owned()),
            Err(e) => Err(e),
        },
        _ => match check_file(input, input_kind) {
            Ok(()) => Ok(input.to_owned()),
            Err(e) => Err(e),
        },
    }
}

/// `pat` occurs in `s`.
pub open spec fn contains_seq(s: Seq<char>, pat: Seq<char>) -> bool {
    exists|i: int| 0 <= i && i + pat.len() <= s.len() && #[trigger] s.subrange(i, i + pat.len()) == pat
}

/// Whether `pat` occurs in `s`.
pub fn contains_str(s: &str, pat: &str) -> (r: bool)
    ensures
        r == contains_seq(s@, pat@),
{
    let cs = chars_of(s);
    let ps = chars_of(pat);
    let n = cs.len();
    let m = ps.len();
    if m > n {
        return false;
    }
    let mut i: usize = 0;
    while i <= n - m
        invariant
            cs@ == s@,
            ps@ == pat@,
            n == s@.len(),
            m == pat@.len(),
            m <= n,
            i <= n - m + 1,
            forall|j: int| 0 <= j < i ==> #[trigger] s@.subrange(j, j + m) != pat@,
        decreases n - m + 1 - i,
    {
        let mut k: usize = 0;
        while k < m && cs[i + k] == ps[k]
            invariant
                cs@ == s@,
                ps@ == pat@,
                n == s@.len(),
                m == pat@.len(),
                i + m <= n,
                k <= m,
                forall|t: int| 0 <= t < k ==> s@[i + t] == pat@[t],
            decreases m - k,
        {
            k = k + 1;
        }
        if k == m {
            assert(s@.subrange(i as int, i + m) =~= pat@);
            return true;
        }
        assert(s@.subrange(i as int, i + m)[k as int] != pat@[k as int]);
        i = i + 1;
    }
    assert forall|j: int| 0 <= j && j + pat@.len() <= s@.len() implies #[trigger] s@.subrange(
        j,
        j + pat@.len(),
    ) != pat@ by {
        assert(j < i);
    }
    false
}

/// The arguments for indexing: the indexing categories of `o`, then each
/// extra path as a system header search path.
pub open spec fn indexing_arguments_of(o: &CompileOption, extra: Option<Seq<Seq<char>>>) -> Seq<
    Seq<char>,
> {
    arguments_of(o, CompileOptionFlags::indexing_flags()) + match extra {
        Some(vs) => flag_pairs("-isystem"@, vs),
        None => seq![],
    }
}

impl CompileOption {
    /// The arguments that indexing this source needs, with `extra` search
    /// paths given as system ones after the option's own.
    pub fn indexing_arguments(&self, extra: &Option<Vec<String>>) -> (r: Vec<String>)
        ensures
            views(r@) == indexing_arguments_of(
                self,
                match extra {
                    Some(v) => Some(views(v@)),
                    None => None,
                },
            ),
    {
        let mut args = self.as_argument_array(CompileOptionFlags::required_for_indexing());
        match extra {
            Some(v) => push_flag_pairs(&mut args, "-isystem", v),
            None => {},
        }
        args
    }
}

impl CompileOption {
    /// Whether the source path names a test: it holds `test`.
    pub open spec fn is_test(&self) -> bool {
        contains_seq(self.source@, "test"@)
    }
}

/// The options of `os` whose source is no test, in order.
pub open spec fn non_tests(os: Seq<CompileOption>) -> Seq<CompileOption>
    decreases os.len(),
{
    if os.len() == 0 {
        seq![]
    } else if os.last().is_test() {
        non_tests(os.drop_last())
    } else {
        non_tests(os.drop_last()).push(os.last())
    }
}

impl CompileOptions {
    /// One reconstructed option per database record, in database order.
    pub fn from_commands(db: &CMakeCompileCommands) -> (r: CompileOptions)
        ensures
            r.options@.len() == db.commands@.len(),
            forall|i: int|
                0 <= i < db.commands@.len() ==> (#[trigger] r.options@[i]).reconstructs(
                    &db.commands@[i],
                ),
    {
        let mut options: Vec<CompileOption> = Vec::new();
        let mut k: usize = 0;
        while k < db.commands.len()
            invariant
                k <= db.commands@.len(),
                options@.len() == k,
                forall|i: int|
                    0 <= i < k ==> (#[trigger] options@[i]).reconstructs(&db.commands@[i]),
            decreases db.commands@.len() - k,
        {
            options.push(CompileOption::from_command(&db.commands[k]));
            k = k + 1;
        }
        CompileOptions { options }
    }

    /// Drops every option whose source path holds `test`, keeping the order of
    /// the rest, and returns how many were dropped.
    pub fn remove_tests(&mut self) -> (r: usize)
        ensures
            final(self).options@ == non_tests(old(self).options@),
            r == old(self).options@.len() - final(self).options@.len(),
    {
        let ghost start = self.options@;
        let n = self.options.len();
        let mut i: usize = 0;
        let mut j: usize = 0;
        assert(start.subrange(0, 0) =~= Seq::<CompileOption>::empty());
        assert(self.options@ =~= non_tests(start.subrange(0, 0)) + start.subrange(0, n as int));
        while j < n
            invariant
                n == start.len(),
                j <= n,
                i == non_tests(start.subrange(0, j as int)).len(),
                i <= j,
                self.options@ == non_tests(start.subrange(0, j as int)) + start.subrange(
                    j as int,
                    n as int,
                ),
            decreases n - j,
        {
            let ghost kept = non_tests(start.subrange(0, j as int));
            assert(start.subrange(0, j + 1).drop_last() =~= start.subrange(0, j as int));
            assert(self.options@[i as int] == start[j as int]);
            if contains_str(self.options[i].source.as_str(), "test") {
                self.options.remove(i);
                assert(self.options@ =~= kept + start.subrange(j + 1, n as int));
            } else {
                assert(self.options@ =~= kept.push(start[j as int]) + start.subrange(
                    j + 1,
                    n as int,
                ));
                i = i + 1;
            }
            j = j + 1;
        }
        assert(start.subrange(0, n as int) =~= start);
        assert(self.options@ =~= non_tests(start));
        n - i
    }
}

impl Default for CompileOption {
    fn default() -> (r: Self)
        ensures
            r.pwd@.len() == 0,
            r.definitions@.len() == 0,
            r.includes@.len() == 0,
            r.includes_system@.len() == 0,
            r.standard@ == DEFAULT_STANDARD@,
            r.warnings@.len() == 0,
            !r.warnings_as_errors,
            r.source@.len() == 0,
            r.output@.len() == 0,
    {
        CompileOption {
            pwd: String::new(),
            definitions: Vec::new(),
            includes: Vec::new(),
            includes_system: Vec::new(),
            standard: String::from_str(DEFAULT_STANDARD),
            warnings: Vec::new(),
            warnings_as_errors: false,
            source: String::new(),
            output: String::new(),
        }
    }
}

impl Default for CompileOptions {
    fn default() -> (r: Self)
        ensures
            r.options@.len() == 0,
    {
        CompileOptions { options: Vec::new() }
    }
}

} // verus!
