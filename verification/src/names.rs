//! Friendlier process names than those of the kernel, which names the
//! executable (`ruby`, `node`, `Python`); the command line usually names the
//! actual server (`puma`, `vite`, `http.server`).

use vstd::prelude::*;

use crate::path;
use crate::path::file_name_of;
use crate::text;
use crate::text::{
    ascii_lowered, contains_text, is_digit, opt_text, rsplit_once_of, tail_run, texts, words_of,
};

verus! {

/// `s` names a program that runs other programs.
pub open spec fn runs_scripts(s: Seq<char>) -> bool {
    ||| s == "ruby"@
    ||| s == "python"@
    ||| s == "python3"@
    ||| s == "node"@
    ||| s == "bun"@
    ||| s == "deno"@
    ||| s == "java"@
    ||| s == "perl"@
    ||| s == "php"@
    ||| s == "sh"@
    ||| s == "bash"@
    ||| s == "zsh"@
    ||| s == "dotnet"@
    ||| s == "npx"@
    ||| s == "bundle"@
}

/// What a version suffix consists of.
pub open spec fn version_chars() -> spec_fn(char) -> bool {
    |c: char| is_digit(c) || c == '.'
}

/// `s` without a version suffix.
pub open spec fn unversioned(s: Seq<char>) -> Seq<char> {
    s.take(s.len() - tail_run(s, version_chars()))
}

/// `s` names an interpreter, in any case and with or without a version.
pub open spec fn names_interpreter(s: Seq<char>) -> bool {
    runs_scripts(ascii_lowered(s)) || runs_scripts(unversioned(ascii_lowered(s)))
}

/// `s` ends the name of a script.
pub open spec fn is_script_ext(s: Seq<char>) -> bool {
    ||| s == "js"@
    ||| s == "mjs"@
    ||| s == "cjs"@
    ||| s == "ts"@
    ||| s == "rb"@
    ||| s == "py"@
    ||| s == "jar"@
    ||| s == "php"@
}

/// `s` without the extension of a script.
pub open spec fn stem_of(s: Seq<char>) -> Seq<char> {
    match rsplit_once_of(s, '.') {
        Some((stem, ext)) => if stem.len() > 0 && is_script_ext(ext) {
            stem
        } else {
            s
        },
        None => s,
    }
}

/// What an interpreter with these arguments runs: the module behind `-m`, or
/// the first argument that is no option, no `exec` or `run`, and no interpreter
/// itself.
pub open spec fn script_in(args: Seq<Seq<char>>) -> Option<Seq<char>>
    decreases args.len(),
{
    if args.len() == 0 {
        None
    } else {
        let tok = args[0];
        let rest = args.drop_first();
        let name = stem_of(file_name_of(tok));
        if tok == "-m"@ || tok == "--module"@ {
            if rest.len() > 0 {
                Some(rest[0])
            } else {
                None
            }
        } else if tok == "exec"@ || tok == "run"@ || (tok.len() > 0 && tok[0] == '-') {
            script_in(rest)
        } else if name.len() > 0 && !names_interpreter(name) {
            Some(name)
        } else {
            script_in(rest)
        }
    }
}

/// The program that a command line starts. Its path may hold white space: where
/// the kernel's name is a component of the command line, it is that.
pub open spec fn program_of(comm: Seq<char>, command: Seq<char>, first: Seq<char>) -> Seq<char> {
    if first.contains('/') && comm.len() > 0 && contains_text(command, seq!['/'] + comm) {
        comm
    } else {
        file_name_of(first)
    }
}

/// The display name of a process, from the kernel's name and the command line.
pub open spec fn name_of(comm: Seq<char>, command: Seq<char>) -> Seq<char> {
    let words = words_of(command);
    if words.len() == 0 {
        comm
    } else {
        let program = program_of(comm, command, words[0]);
        if !names_interpreter(program) {
            if program.len() == 0 {
                comm
            } else {
                program
            }
        } else {
            match script_in(words.drop_first()) {
                Some(name) => name,
                None => comm,
            }
        }
    }
}

/// Best display name for a listener, from the kernel's name for its process and
/// its command line.
pub fn display_name(comm: &str, command: &str) -> (r: String)
    ensures
        r@ == name_of(comm@, command@),
{
    let words = text::words(command);
    let ghost all = texts(words@);
    if words.len() == 0 {
        return comm.to_owned();
    }
    assert(all[0] == words@[0]@);
    let first = words[0].as_str();
    let mut component = String::new();
    component.push('/');
    text::push_text(&mut component, comm);
    assert(component@ =~= seq!['/'] + comm@);
    let program = if has_slash(first) && !comm.is_empty() && text::contains(
        command,
        component.as_str(),
    ) {
        comm.to_owned()
    } else {
        basename(first)
    };
    if !is_interpreter(program.as_str()) {
        return if program.as_str().is_empty() {
            comm.to_owned()
        } else {
            program
        };
    }
    match script(&words) {
        Some(name) => name,
        None => comm.to_owned(),
    }
}

fn has_slash(s: &str) -> (r: bool)
    ensures
        r == s@.contains('/'),
{
    let v = text::chars_of(s);
    let mut i: usize = 0;
    while i < v.len()
        invariant
            i <= v@.len(),
            v@ == s@,
            forall|j: int| 0 <= j < i ==> #[trigger] v@[j] != '/',
        decreases v.len() - i,
    {
        if v[i] == '/' {
            assert(v@[i as int] == '/');
            return true;
        }
        i = i + 1;
    }
    false
}

/// What an interpreter runs, from the words of its command line.
fn script(words: &Vec<String>) -> (r: Option<String>)
    requires
        words@.len() > 0,
    ensures
        opt_text(r) == script_in(texts(words@).drop_first()),
{
    let ghost all = texts(words@);
    let mut i: usize = 1;
    assert(all.drop_first() =~= all.skip(1));
    while i < words.len()
        invariant
            1 <= i <= words@.len(),
            all == texts(words@),
            script_in(all.drop_first()) == script_in(all.skip(i as int)),
        decreases words.len() - i,
    {
        let tok = words[i].as_str();
        let ghost rest = all.skip(i as int);
        proof {
            assert(rest[0] == tok@);
            assert(rest.drop_first() =~= all.skip(i + 1));
        }
        if text::same(tok, "-m") || text::same(tok, "--module") {
            if i + 1 < words.len() {
                assert(all.skip(i + 1)[0] == words@[i + 1]@);
                return Some(words[i + 1].clone());
            }
            return None;
        }
        if text::same(tok, "exec") || text::same(tok, "run") || (!tok.is_empty() && tok.get_char(0)
            == '-') {
            i = i + 1;
        } else {
            let name = strip_ext(basename(tok).as_str());
            if !name.as_str().is_empty() && !is_interpreter(name.as_str()) {
                return Some(name);
            }
            i = i + 1;
        }
    }
    None
}

fn listed_interpreter(s: &str) -> (r: bool)
    ensures
        r == runs_scripts(s@),
{
    text::same(s, "ruby") || text::same(s, "python") || text::same(s, "python3") || text::same(
        s,
        "node",
    ) || text::same(s, "bun") || text::same(s, "deno") || text::same(s, "java") || text::same(
        s,
        "perl",
    ) || text::same(s, "php") || text::same(s, "sh") || text::same(s, "bash") || text::same(
        s,
        "zsh",
    ) || text::same(s, "dotnet") || text::same(s, "npx") || text::same(s, "bundle")
}

/// Whether `name` names an interpreter, in any case and with or without a
/// version.
pub fn is_interpreter(name: &str) -> (r: bool)
    ensures
        r == names_interpreter(name@),
{
    let lower = text::to_ascii_lowercase(name);
    let v = text::chars_of(lower.as_str());
    let mut n: usize = v.len();
    while n > 0 && (('0' <= v[n - 1] && v[n - 1] <= '9') || v[n - 1] == '.')
        invariant
            n <= v@.len(),
            forall|j: int| n <= j < v@.len() ==> version_chars()(#[trigger] v@[j]),
        decreases n,
    {
        n = n - 1;
    }
    let base = text::piece(&v, 0, n);
    proof {
        text::lemma_tail_run_unique(v@, version_chars(), v@.len() - n);
        assert(base@ =~= unversioned(v@));
    }
    listed_interpreter(lower.as_str()) || listed_interpreter(base.as_str())
}

/// The last name on a path.
pub fn basename(s: &str) -> (r: String)
    ensures
        r@ == file_name_of(s@),
{
    path::file_name(s)
}

fn script_ext(s: &str) -> (r: bool)
    ensures
        r == is_script_ext(s@),
{
    text::same(s, "js") || text::same(s, "mjs") || text::same(s, "cjs") || text::same(s, "ts")
        || text::same(s, "rb") || text::same(s, "py") || text::same(s, "jar") || text::same(
        s,
        "php",
    )
}

/// `s` without the extension of a script.
pub fn strip_ext(s: &str) -> (r: String)
    ensures
        r@ == stem_of(s@),
{
    match text::rsplit_once(s, '.') {
        Some((stem, ext)) => {
            if !stem.as_str().is_empty() && script_ext(ext.as_str()) {
                stem
            } else {
                s.to_owned()
            }
        },
        None => s.to_owned(),
    }
}

proof fn lemma_words_are_not_empty(s: Seq<char>)
    ensures
        forall|i: int| 0 <= i < words_of(s).len() ==> (#[trigger] words_of(s)[i]).len() > 0,
    decreases s.len(),
{
    let t = s.skip(text::run(s, text::spaces()) as int);
    let n = text::run(t, text::inks()) as int;
    let all = words_of(s);
    text::lemma_run(s, text::spaces());
    text::lemma_run(t, text::inks());
    if all.len() > 0 {
        let rest = words_of(t.skip(n));
        lemma_words_are_not_empty(t.skip(n));
        assert forall|i: int| 0 <= i < all.len() implies (#[trigger] all[i]).len() > 0 by {
            if i > 0 {
                assert(all[i] == rest[i - 1]);
            } else {
                assert(all[0] == t.take(n));
            }
        }
    }
}

proof fn lemma_scripts_have_names(args: Seq<Seq<char>>)
    requires
        forall|i: int| 0 <= i < args.len() ==> (#[trigger] args[i]).len() > 0,
    ensures
        script_in(args) matches Some(name) ==> name.len() > 0,
    decreases args.len(),
{
    if args.len() > 0 {
        let rest = args.drop_first();
        assert forall|i: int| 0 <= i < rest.len() implies (#[trigger] rest[i]).len() > 0 by {
            assert(rest[i] == args[i + 1]);
        }
        lemma_scripts_have_names(rest);
        if rest.len() > 0 {
            assert(rest[0].len() > 0);
        }
    }
}

/// A process that the kernel names has a name to show.
pub proof fn every_process_has_a_name(comm: Seq<char>, command: Seq<char>)
    requires
        comm.len() > 0,
    ensures
        name_of(comm, command).len() > 0,
{
    let words = words_of(command);
    lemma_words_are_not_empty(command);
    if words.len() > 0 {
        let args = words.drop_first();
        assert forall|i: int| 0 <= i < args.len() implies (#[trigger] args[i]).len() > 0 by {
            assert(args[i] == words[i + 1]);
        }
        lemma_scripts_have_names(args);
    }
}

/// A program that runs no other is called by its own name, whatever its
/// arguments are and wherever it lies.
pub proof fn a_program_goes_by_its_name(
    comm: Seq<char>,
    command: Seq<char>,
    dir: Seq<char>,
    name: Seq<char>,
)
    requires
        words_of(command).len() > 0,
        name.len() > 0,
        name != seq!['.'],
        name != seq!['.', '.'],
        !name.contains('/'),
        !names_interpreter(name),
    ensures
        words_of(command)[0] == name ==> name_of(comm, command) == name,
        words_of(command)[0] == dir + seq!['/'] + name && (comm == name || !contains_text(
            command,
            seq!['/'] + comm,
        )) ==> name_of(comm, command) == name,
{
    path::a_name_is_one_step(dir, name);
    path::lemma_names_of_single(name);
    assert(file_name_of(name) == name);
    assert(file_name_of(dir + seq!['/'] + name) == name);
}

/// What an interpreter runs names the process: a script by its file name, without
/// the extension where that tells the language.
pub proof fn a_script_goes_by_its_name(
    comm: Seq<char>,
    command: Seq<char>,
    interpreter: Seq<char>,
    dir: Seq<char>,
    stem: Seq<char>,
    more: Seq<Seq<char>>,
)
    requires
        !interpreter.contains('/'),
        interpreter.len() > 0 && interpreter != seq!['.'] && interpreter != seq!['.', '.'],
        names_interpreter(interpreter),
        dir.len() > 0 && dir[0] != '-',
        stem.len() > 0,
        !stem.contains('/'),
        !names_interpreter(stem),
    ensures
        words_of(command) == seq![interpreter, dir + seq!['/'] + stem + ".py"@] + more
            ==> name_of(comm, command) == stem,
        words_of(command) == seq![interpreter, dir + seq!['/'] + stem + ".rb"@] + more
            ==> name_of(comm, command) == stem,
        words_of(command) == seq![interpreter, dir + seq!['/'] + stem + ".js"@] + more
            ==> name_of(comm, command) == stem,
        !stem.contains('.') && words_of(command) == seq![interpreter, dir + seq!['/'] + stem] + more
            ==> name_of(comm, command) == stem,
{
    path::lemma_names_of_single(interpreter);
    reveal_strlit(".py");
    reveal_strlit(".rb");
    reveal_strlit(".js");
    reveal_strlit("py");
    reveal_strlit("rb");
    reveal_strlit("js");
    reveal_strlit("-m");
    reveal_strlit("--module");
    reveal_strlit("exec");
    reveal_strlit("run");
    assert(".py"@ =~= seq!['.'] + "py"@);
    assert(".rb"@ =~= seq!['.'] + "rb"@);
    assert(".js"@ =~= seq!['.'] + "js"@);
    lemma_scripted(comm, command, interpreter, dir, stem, "py"@, ".py"@, more);
    lemma_scripted(comm, command, interpreter, dir, stem, "rb"@, ".rb"@, more);
    lemma_scripted(comm, command, interpreter, dir, stem, "js"@, ".js"@, more);
    if !stem.contains('.') {
        let tok = dir + seq!['/'] + stem;
        text::splits_are_at_the_first_or_last(stem, '.', stem);
        assert(stem != seq!['.'] && stem != seq!['.', '.']) by {
            if stem == seq!['.'] || stem == seq!['.', '.'] {
                assert(stem[0] == '.');
                assert(stem.contains('.'));
            }
        }
        path::a_name_is_one_step(dir, stem);
        assert(tok.contains('/')) by {
            assert(tok[dir.len() as int] == '/');
        }
        if words_of(command) == seq![interpreter, tok] + more {
            lemma_first_script(comm, command, interpreter, tok, stem, more);
        }
    }
}

proof fn lemma_first_script(
    comm: Seq<char>,
    command: Seq<char>,
    interpreter: Seq<char>,
    tok: Seq<char>,
    name: Seq<char>,
    more: Seq<Seq<char>>,
)
    requires
        words_of(command) == seq![interpreter, tok] + more,
        !interpreter.contains('/'),
        names_interpreter(interpreter),
        file_name_of(interpreter) == interpreter,
        stem_of(file_name_of(tok)) == name,
        name.len() > 0,
        !names_interpreter(name),
        tok.len() > 0,
        tok[0] != '-',
        tok.contains('/'),
    ensures
        name_of(comm, command) == name,
{
    let words = words_of(command);
    let args = words.drop_first();
    assert(words[0] == interpreter);
    assert(args =~= seq![tok] + more);
    assert(args[0] == tok);
    reveal_strlit("-m");
    reveal_strlit("--module");
    reveal_strlit("exec");
    reveal_strlit("run");
    assert(tok != "-m"@ && tok != "--module"@) by {
        assert("-m"@[0] == '-' && "--module"@[0] == '-');
    }
    let k = choose|k: int| 0 <= k < tok.len() && tok[k] == '/';
    assert(tok != "exec"@ && tok != "run"@) by {
        assert(tok[k] == '/');
    }
}

proof fn lemma_scripted(
    comm: Seq<char>,
    command: Seq<char>,
    interpreter: Seq<char>,
    dir: Seq<char>,
    stem: Seq<char>,
    ext: Seq<char>,
    dotted: Seq<char>,
    more: Seq<Seq<char>>,
)
    requires
        !interpreter.contains('/'),
        names_interpreter(interpreter),
        file_name_of(interpreter) == interpreter,
        dir.len() > 0 && dir[0] != '-',
        stem.len() > 0,
        !stem.contains('/'),
        !names_interpreter(stem),
        ext == "py"@ || ext == "rb"@ || ext == "js"@,
        dotted == seq!['.'] + ext,
    ensures
        words_of(command) == seq![interpreter, dir + seq!['/'] + stem + dotted] + more ==> name_of(
            comm,
            command,
        ) == stem,
{
    reveal_strlit("py");
    reveal_strlit("rb");
    reveal_strlit("js");
    let file = stem + dotted;
    let tok = dir + seq!['/'] + stem + dotted;
    assert(tok =~= dir + seq!['/'] + file);
    assert(!ext.contains('.') && !ext.contains('/'));
    assert(!file.contains('/')) by {
        assert forall|i: int| 0 <= i < file.len() implies #[trigger] file[i] != '/' by {
            if i < stem.len() {
                assert(stem.contains(stem[i]));
            }
        }
    }
    text::splits_are_at_the_first_or_last(stem, '.', ext);
    assert(stem + seq!['.'] + ext =~= file);
    assert(file.len() >= 4);
    path::a_name_is_one_step(dir, file);
    assert(tok.contains('/')) by {
        assert(tok[dir.len() as int] == '/');
    }
    if words_of(command) == seq![interpreter, tok] + more {
        lemma_first_script(comm, command, interpreter, tok, stem, more);
    }
}

/// A module that an interpreter is told to run names the process, and options,
/// `exec` and `run` do not.
pub proof fn a_module_goes_by_its_name(
    args: Seq<Seq<char>>,
    flag: Seq<char>,
    module: Seq<char>,
    more: Seq<Seq<char>>,
)
    ensures
        script_in(seq!["-m"@, module] + more) == Some(module),
        script_in(seq!["--module"@, module] + more) == Some(module),
        script_in(seq!["exec"@] + args) == script_in(args),
        script_in(seq!["run"@] + args) == script_in(args),
        flag.len() > 0 && flag[0] == '-' && flag != "-m"@ && flag != "--module"@ ==> script_in(
            seq![flag] + args,
        ) == script_in(args),
{
    assert((seq!["-m"@, module] + more).drop_first()[0] == module);
    assert((seq!["--module"@, module] + more).drop_first()[0] == module);
    assert((seq!["exec"@] + args).drop_first() =~= args);
    assert((seq!["run"@] + args).drop_first() =~= args);
    assert((seq![flag] + args).drop_first() =~= args);
    reveal_strlit("-m");
    reveal_strlit("--module");
    reveal_strlit("exec");
    reveal_strlit("run");
    assert("exec"@.len() == 4 && "run"@.len() == 3);
    assert("-m"@[0] == '-' && "--module"@[0] == '-');
    assert("exec"@[0] == 'e' && "run"@[0] == 'r');
}

/// The interpreters are known by name, with or without a version behind it.
pub proof fn interpreters_are_known_with_their_versions(version: Seq<char>)
    requires
        forall|i: int|
            0 <= i < version.len() ==> ('0' <= (#[trigger] version[i]) <= '9') || version[i] == '.',
    ensures
        names_interpreter("ruby"@ + version),
        names_interpreter("python"@ + version),
        names_interpreter("node"@ + version),
        names_interpreter("java"@ + version),
        names_interpreter("php"@ + version),
        names_interpreter("perl"@ + version),
        names_interpreter("bash"@ + version),
{
    reveal_strlit("ruby");
    reveal_strlit("python");
    reveal_strlit("node");
    reveal_strlit("java");
    reveal_strlit("php");
    reveal_strlit("perl");
    reveal_strlit("bash");
    lemma_versioned("ruby"@, version);
    lemma_versioned("python"@, version);
    lemma_versioned("node"@, version);
    lemma_versioned("java"@, version);
    lemma_versioned("php"@, version);
    lemma_versioned("perl"@, version);
    lemma_versioned("bash"@, version);
}

proof fn lemma_versioned(base: Seq<char>, version: Seq<char>)
    requires
        runs_scripts(base),
        base.len() > 0,
        forall|i: int| 0 <= i < base.len() ==> 'a' <= #[trigger] base[i] <= 'z',
        forall|i: int|
            0 <= i < version.len() ==> ('0' <= (#[trigger] version[i]) <= '9') || version[i] == '.',
    ensures
        names_interpreter(base + version),
{
    let s = base + version;
    let low = ascii_lowered(s);
    assert(low =~= s);
    let p = version_chars();
    assert forall|i: int| s.len() - version.len() <= i < s.len() implies p(#[trigger] s[i]) by {
        let c = version[i - base.len()];
        assert(s[i] == c);
    }
    assert(!p(s[s.len() - version.len() - 1])) by {
        assert('a' <= base[base.len() - 1] <= 'z');
    }
    text::lemma_tail_run_unique(s, p, version.len() as int);
    assert(s.take(base.len() as int) =~= base);
}

/// These are the names of interpreters, and it does not matter in which case they
/// are written.
pub proof fn the_interpreters_are_these(s: Seq<char>)
    ensures
        names_interpreter(s) == names_interpreter(ascii_lowered(s)),
        names_interpreter("ruby"@) && names_interpreter("python"@) && names_interpreter(
            "python3"@,
        ) && names_interpreter("node"@) && names_interpreter("bun"@) && names_interpreter("deno"@)
            && names_interpreter("java"@) && names_interpreter("perl"@) && names_interpreter(
            "php"@,
        ) && names_interpreter("sh"@) && names_interpreter("bash"@) && names_interpreter("zsh"@)
            && names_interpreter("dotnet"@) && names_interpreter("npx"@) && names_interpreter(
            "bundle"@,
        ),
{
    lemma_lowered_twice(s);
    lemma_lower_words();
    lemma_plain("ruby"@);
    lemma_plain("python"@);
    lemma_plain("python3"@);
    lemma_plain("node"@);
    lemma_plain("bun"@);
    lemma_plain("deno"@);
    lemma_plain("java"@);
    lemma_plain("perl"@);
    lemma_plain("php"@);
    lemma_plain("sh"@);
    lemma_plain("bash"@);
    lemma_plain("zsh"@);
    lemma_plain("dotnet"@);
    lemma_plain("npx"@);
    lemma_plain("bundle"@);
}

proof fn lemma_lowered_twice(s: Seq<char>)
    ensures
        ascii_lowered(ascii_lowered(s)) == ascii_lowered(s),
{
    assert(ascii_lowered(ascii_lowered(s)) =~= ascii_lowered(s));
}

/// No character of `s` is a capital letter.
pub open spec fn is_lower(s: Seq<char>) -> bool {
    forall|i: int| 0 <= i < s.len() ==> !('A' <= #[trigger] s[i] <= 'Z')
}

proof fn lemma_plain(s: Seq<char>)
    requires
        is_lower(s),
    ensures
        ascii_lowered(s) == s,
        runs_scripts(s) ==> names_interpreter(s),
{
    assert(ascii_lowered(s) =~= s);
}

proof fn lemma_lower_words()
    ensures
        is_lower("ruby"@) && is_lower("python"@) && is_lower("python3"@) && is_lower("node"@),
        is_lower("bun"@) && is_lower("deno"@) && is_lower("java"@) && is_lower("perl"@),
        is_lower("php"@) && is_lower("sh"@) && is_lower("bash"@) && is_lower("zsh"@),
        is_lower("dotnet"@) && is_lower("npx"@) && is_lower("bundle"@),
{
    reveal_strlit("ruby");
    reveal_strlit("python");
    reveal_strlit("python3");
    reveal_strlit("node");
    reveal_strlit("bun");
    reveal_strlit("deno");
    reveal_strlit("java");
    reveal_strlit("perl");
    reveal_strlit("php");
    reveal_strlit("sh");
    reveal_strlit("bash");
    reveal_strlit("zsh");
    reveal_strlit("dotnet");
    reveal_strlit("npx");
    reveal_strlit("bundle");
}

/// An extension is left out where it is a script's, and only there; a name that
/// is nothing but an extension stays.
pub proof fn only_script_extensions_are_left_out(stem: Seq<char>, ext: Seq<char>)
    requires
        stem.len() > 0,
        !ext.contains('.'),
    ensures
        ext == "js"@ || ext == "mjs"@ || ext == "cjs"@ || ext == "ts"@ || ext == "rb"@ || ext
            == "py"@ || ext == "jar"@ || ext == "php"@ ==> stem_of(stem + seq!['.'] + ext) == stem,
        !(ext == "js"@ || ext == "mjs"@ || ext == "cjs"@ || ext == "ts"@ || ext == "rb"@ || ext
            == "py"@ || ext == "jar"@ || ext == "php"@) ==> stem_of(stem + seq!['.'] + ext) == stem
            + seq!['.'] + ext,
        !stem.contains('.') ==> stem_of(stem) == stem,
        stem_of(seq!['.'] + ext) == seq!['.'] + ext,
{
    text::splits_are_at_the_first_or_last(stem, '.', ext);
    text::splits_are_at_the_first_or_last(Seq::<char>::empty(), '.', ext);
    assert(Seq::<char>::empty() + seq!['.'] + ext =~= seq!['.'] + ext);
}

/// Where nothing better is known, the kernel's name stands in: without a command
/// line, and where an interpreter runs nothing that has a name. It also tells the
/// program where the path holds white space.
pub proof fn the_kernels_name_stands_in(comm: Seq<char>, command: Seq<char>)
    ensures
        words_of(command).len() == 0 ==> name_of(comm, command) == comm,
        words_of(command).len() > 0 && names_interpreter(
            program_of(comm, command, words_of(command)[0]),
        ) && script_in(words_of(command).drop_first()) is None ==> name_of(comm, command) == comm,
        words_of(command).len() > 0 && words_of(command)[0].contains('/') && comm.len() > 0
            && contains_text(command, seq!['/'] + comm) && !names_interpreter(comm) ==> name_of(
            comm,
            command,
        ) == comm,
        script_in(Seq::<Seq<char>>::empty()) is None,
{
}

/// An interpreter among the arguments of another names nothing, and what it runs
/// does.
pub proof fn interpreters_among_the_arguments_are_passed_over(
    tok: Seq<char>,
    args: Seq<Seq<char>>,
)
    requires
        tok != "-m"@ && tok != "--module"@,
        names_interpreter(stem_of(file_name_of(tok))),
    ensures
        script_in(seq![tok] + args) == script_in(args),
{
    assert((seq![tok] + args).drop_first() =~= args);
}

} // verus!
