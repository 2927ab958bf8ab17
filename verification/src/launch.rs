//! What the scripts that fetch and start programs do.
use vstd::prelude::*;
use vstd::string::*;

use crate::{converge, numbers, phantun, shell, text};

verus! {

/// What stands between two texts on a line, where it begins with the one and ends with the
/// other.
pub open spec fn between(line: Seq<char>, opening: Seq<char>, ending: Seq<char>) -> Option<Seq<char>> {
    match text::strip_prefix(line, opening) {
        Some(rest) => text::strip_suffix(rest, ending),
        None => None,
    }
}

/// The one word that stands between two texts on a line, as a shell reads it.
pub open spec fn word_between(line: Seq<char>, opening: Seq<char>, ending: Seq<char>) -> Option<
    Seq<char>,
> {
    match between(line, opening, ending) {
        Some(quoted) => match shell::read_word(quoted) {
            Some(reader) => if reader.inside || reader.escaped {
                None
            } else {
                Some(reader.word)
            },
            None => None,
        },
        None => None,
    }
}

/// What was put between two texts is what stands between them.
pub proof fn lemma_between(opening: Seq<char>, middle: Seq<char>, ending: Seq<char>)
    ensures
        between(opening + middle + ending, opening, ending) == Some(middle),
{
    let line = opening + middle + ending;
    let rest = middle + ending;
    assert(line.subrange(0, opening.len() as int) =~= opening);
    assert(line.skip(opening.len() as int) =~= rest);
    let at = middle.len() as int;
    assert(rest.subrange(at, at + ending.len()) =~= ending);
    assert(rest.len() - ending.len() == at);
    assert(rest.take(at) =~= middle);
}

proof fn lemma_word_between(opening: Seq<char>, value: Seq<char>, ending: Seq<char>)
    ensures
        word_between(opening + shell::quoted(value) + ending, opening, ending) == Some(value),
{
    lemma_between(opening, shell::quoted(value), ending);
    shell::lemma_quoted_value_is_one_word(value);
}

/// A text that differs from another in one of its places does not begin with it.
pub proof fn lemma_other_opening(line: Seq<char>, opening: Seq<char>, k: int)
    requires
        0 <= k < opening.len(),
        k < line.len() ==> line[k] != opening[k],
    ensures
        !text::starts_with(line, opening),
{
    if text::starts_with(line, opening) {
        assert(line.subrange(0, opening.len() as int)[k] == line[k]);
    }
}

/// What the machine has: what an address gives, what a text's digest is, and which program
/// stands under which name.
pub struct World {
    pub fetch: spec_fn(Seq<char>) -> Seq<char>,
    pub digest: spec_fn(Seq<char>) -> Seq<char>,
}

/// A shell that installs a program.
#[verifier::ext_equal]
pub struct Installer {
    pub programs: Map<Seq<char>, Seq<char>>,
    pub fetched: Seq<char>,
    pub got: Seq<char>,
    /// Whether it passes over lines up to the end of a condition.
    pub skips: bool,
    /// The code that it ended with.
    pub ended: Option<int>,
}

/// What it does at a line. A line that is none of those it knows ends it.
pub open spec fn install_line(sh: Installer, line: Seq<char>, world: World) -> Installer {
    if sh.ended is Some {
        sh
    } else if sh.skips {
        Installer { skips: line != "fi"@, ..sh }
    } else if line == "set -eu"@ || line == "tmp=$(mktemp)"@ || line
        == "trap 'rm -f \"$tmp\"' EXIT"@ || line == "fi"@ || text::starts_with(line, "echo \""@) {
        sh
    } else if line == "exit 1"@ {
        Installer { ended: Some(1), ..sh }
    } else if line == "got=$(sha256sum \"$tmp\" | cut -d' ' -f1)"@ {
        Installer { got: (world.digest)(sh.fetched), ..sh }
    } else if word_between(line, "curl -fsSL --connect-timeout 15 --max-time 120 "@, " -o \"$tmp\""@) is Some {
        let url = word_between(line, "curl -fsSL --connect-timeout 15 --max-time 120 "@, " -o \"$tmp\""@)->0;
        Installer { fetched: (world.fetch)(url), ..sh }
    } else if word_between(line, "if [ \"$got\" != "@, " ]; then"@) is Some {
        let wanted = word_between(line, "if [ \"$got\" != "@, " ]; then"@)->0;
        Installer { skips: sh.got == wanted, ..sh }
    } else if text::starts_with(line, "install -m 0755 \"$tmp\" /usr/local/bin/"@) {
        Installer {
            programs: sh.programs.insert(
                line.skip("install -m 0755 \"$tmp\" /usr/local/bin/"@.len() as int),
                sh.fetched,
            ),
            ..sh
        }
    } else {
        Installer { ended: Some(2), ..sh }
    }
}

/// What it does at lines, one after the other.
pub open spec fn install_lines(sh: Installer, lines: Seq<Seq<char>>, world: World) -> Installer
    decreases lines.len(),
{
    if lines.len() == 0 {
        sh
    } else {
        install_line(install_lines(sh, lines.drop_last(), world), lines.last(), world)
    }
}

/// A shell that starts with some programs on the machine.
pub open spec fn fresh_installer(programs: Map<Seq<char>, Seq<char>>) -> Installer {
    Installer { programs, fetched: seq![], got: seq![], skips: false, ended: None }
}

proof fn lemma_install_more(sh: Installer, lines: Seq<Seq<char>>, line: Seq<char>, world: World)
    ensures
        install_lines(sh, lines.push(line), world) == install_line(
            install_lines(sh, lines, world),
            line,
            world,
        ),
{
    assert(lines.push(line).drop_last() =~= lines);
}

/// Whether a text is all on one line.
pub open spec fn on_one_line(s: Seq<char>) -> bool {
    !s.contains('\n')
}

proof fn lemma_one_line(a: Seq<char>, b: Seq<char>)
    requires
        on_one_line(a),
        on_one_line(b),
    ensures
        on_one_line(a + b),
{
    let s = a + b;
    if s.contains('\n') {
        let i = choose|i: int| 0 <= i < s.len() && s[i] == '\n';
        if i < a.len() {
            assert(a.contains(a[i]));
        } else {
            assert(b.contains(b[i - a.len()]));
        }
    }
}

proof fn lemma_quoted_on_one_line(value: Seq<char>)
    requires
        on_one_line(value),
    ensures
        on_one_line(shell::quoted(value)),
{
    reveal_strlit("'");
    reveal_strlit("'\\''");
    lemma_replaced_on_one_line(value);
    lemma_one_line("'"@, text::replace_char(value, '\'', "'\\''"@));
    lemma_one_line("'"@ + text::replace_char(value, '\'', "'\\''"@), "'"@);
}

proof fn lemma_replaced_on_one_line(value: Seq<char>)
    requires
        on_one_line(value),
    ensures
        on_one_line(text::replace_char(value, '\'', "'\\''"@)),
    decreases value.len(),
{
    reveal_strlit("'\\''");
    if value.len() > 0 {
        let front = value.drop_last();
        assert forall|i: int| 0 <= i < front.len() implies front[i] != '\n' by {
            assert(value.contains(value[i]));
        }
        lemma_replaced_on_one_line(front);
        let head = text::replace_char(front, '\'', "'\\''"@);
        assert(value.contains(value.last()));
        lemma_one_line(head, "'\\''"@);
        lemma_one_line(head, seq![value.last()]);
        assert(head.push(value.last()) =~= head + seq![value.last()]);
    }
}

proof fn lemma_join_ten(all: Seq<Seq<char>>, nl: Seq<char>)
    requires
        all.len() == 10,
    ensures
        text::join(all, nl) == all[0] + nl + all[1] + nl + all[2] + nl + all[3] + nl + all[4] + nl + all[5] + nl + all[6] + nl + all[7] + nl + all[8] + nl + all[9],
{
    let a1 = seq![all[0]];
    let a2 = a1.push(all[1]);
    let a3 = a2.push(all[2]);
    let a4 = a3.push(all[3]);
    let a5 = a4.push(all[4]);
    let a6 = a5.push(all[5]);
    let a7 = a6.push(all[6]);
    let a8 = a7.push(all[7]);
    let a9 = a8.push(all[8]);
    let a10 = a9.push(all[9]);
    text::lemma_join_one_more(a1, all[1], nl);
    text::lemma_join_one_more(a2, all[2], nl);
    text::lemma_join_one_more(a3, all[3], nl);
    text::lemma_join_one_more(a4, all[4], nl);
    text::lemma_join_one_more(a5, all[5], nl);
    text::lemma_join_one_more(a6, all[6], nl);
    text::lemma_join_one_more(a7, all[7], nl);
    text::lemma_join_one_more(a8, all[8], nl);
    text::lemma_join_one_more(a9, all[9], nl);
    assert(a10 =~= all);
}

spec fn install_script_lines(program: Seq<char>, url: Seq<char>, sha256: Seq<char>) -> Seq<Seq<char>> {
    seq![
        "set -eu"@,
        "tmp=$(mktemp)"@,
        "trap 'rm -f \"$tmp\"' EXIT"@,
        "curl -fsSL --connect-timeout 15 --max-time 120 "@ + shell::quoted(url) + " -o \"$tmp\""@,
        "got=$(sha256sum \"$tmp\" | cut -d' ' -f1)"@,
        "if [ \"$got\" != "@ + shell::quoted(sha256) + " ]; then"@,
        "echo \""@ + program + " sha256 不匹配\" >&2"@,
        "exit 1"@,
        "fi"@,
        "install -m 0755 \"$tmp\" /usr/local/bin/"@ + program,
    ]
}

proof fn lemma_install_pieces()
    ensures
        "set -eu\ntmp=$(mktemp)\ntrap 'rm -f \"$tmp\"' EXIT\ncurl -fsSL --connect-timeout 15 --max-time 120 "@ == "set -eu"@ + "\n"@ + "tmp=$(mktemp)"@ + "\n"@ + "trap 'rm -f \"$tmp\"' EXIT"@ + "\n"@ + "curl -fsSL --connect-timeout 15 --max-time 120 "@,
        " -o \"$tmp\"\ngot=$(sha256sum \"$tmp\" | cut -d' ' -f1)\nif [ \"$got\" != "@ == " -o \"$tmp\""@ + "\n"@ + "got=$(sha256sum \"$tmp\" | cut -d' ' -f1)"@ + "\n"@ + "if [ \"$got\" != "@,
        " ]; then\necho \""@ == " ]; then"@ + "\n"@ + "echo \""@,
        " sha256 不匹配\" >&2\nexit 1\nfi\ninstall -m 0755 \"$tmp\" /usr/local/bin/"@ == " sha256 不匹配\" >&2"@ + "\n"@ + "exit 1"@ + "\n"@ + "fi"@ + "\n"@ + "install -m 0755 \"$tmp\" /usr/local/bin/"@,
{
    reveal_strlit("\n");
    reveal_strlit("set -eu");
    reveal_strlit("tmp=$(mktemp)");
    reveal_strlit("trap 'rm -f \"$tmp\"' EXIT");
    reveal_strlit("curl -fsSL --connect-timeout 15 --max-time 120 ");
    reveal_strlit("set -eu\ntmp=$(mktemp)\ntrap 'rm -f \"$tmp\"' EXIT\ncurl -fsSL --connect-timeout 15 --max-time 120 ");
    reveal_strlit(" -o \"$tmp\"");
    reveal_strlit("got=$(sha256sum \"$tmp\" | cut -d' ' -f1)");
    reveal_strlit("if [ \"$got\" != ");
    reveal_strlit(" -o \"$tmp\"\ngot=$(sha256sum \"$tmp\" | cut -d' ' -f1)\nif [ \"$got\" != ");
    reveal_strlit(" ]; then");
    reveal_strlit("echo \"");
    reveal_strlit(" ]; then\necho \"");
    reveal_strlit(" sha256 不匹配\" >&2");
    reveal_strlit("exit 1");
    reveal_strlit("fi");
    reveal_strlit("install -m 0755 \"$tmp\" /usr/local/bin/");
    reveal_strlit(" sha256 不匹配\" >&2\nexit 1\nfi\ninstall -m 0755 \"$tmp\" /usr/local/bin/");
}

proof fn lemma_install_lines_stand_alone(program: Seq<char>, url: Seq<char>, sha256: Seq<char>, i: int)
    requires
        on_one_line(program),
        on_one_line(url),
        on_one_line(sha256),
        0 <= i < 10,
    ensures
        on_one_line(install_script_lines(program, url, sha256)[i]),
{
    reveal_strlit("set -eu");
    reveal_strlit("tmp=$(mktemp)");
    reveal_strlit("trap 'rm -f \"$tmp\"' EXIT");
    reveal_strlit("curl -fsSL --connect-timeout 15 --max-time 120 ");
    reveal_strlit(" -o \"$tmp\"");
    reveal_strlit("got=$(sha256sum \"$tmp\" | cut -d' ' -f1)");
    reveal_strlit("if [ \"$got\" != ");
    reveal_strlit(" ]; then");
    reveal_strlit("echo \"");
    reveal_strlit(" sha256 不匹配\" >&2");
    reveal_strlit("exit 1");
    reveal_strlit("fi");
    reveal_strlit("install -m 0755 \"$tmp\" /usr/local/bin/");
    lemma_quoted_on_one_line(url);
    lemma_quoted_on_one_line(sha256);
    lemma_one_line("curl -fsSL --connect-timeout 15 --max-time 120 "@, shell::quoted(url));
    lemma_one_line("curl -fsSL --connect-timeout 15 --max-time 120 "@ + shell::quoted(url), " -o \"$tmp\""@);
    lemma_one_line("if [ \"$got\" != "@, shell::quoted(sha256));
    lemma_one_line("if [ \"$got\" != "@ + shell::quoted(sha256), " ]; then"@);
    lemma_one_line("echo \""@, program);
    lemma_one_line("echo \""@ + program, " sha256 不匹配\" >&2"@);
    lemma_one_line("install -m 0755 \"$tmp\" /usr/local/bin/"@, program);
}

#[verifier::spinoff_prover]
#[verifier::rlimit(40)]
proof fn lemma_install_regrouped(
    n: Seq<char>,
    a: Seq<char>,
    b: Seq<char>,
    c: Seq<char>,
    d: Seq<char>,
    url: Seq<char>,
    e: Seq<char>,
    f: Seq<char>,
    g: Seq<char>,
    sha: Seq<char>,
    h: Seq<char>,
    i: Seq<char>,
    program: Seq<char>,
    j: Seq<char>,
    k: Seq<char>,
    l: Seq<char>,
    m: Seq<char>,
)
    ensures
        (a + n + b + n + c + n + d) + url + (e + n + f + n + g) + sha + (h + n + i) + program + (j + n
            + k + n + l + n + m) + program == a + n + b + n + c + n + (d + url + e) + n + f + n + (g
            + sha + h) + n + (i + program + j) + n + k + n + l + n + (m + program),
{
}

proof fn lemma_install_text(program: Seq<char>, url: Seq<char>, sha256: Seq<char>)
    requires
        on_one_line(program),
        on_one_line(url),
        on_one_line(sha256),
    ensures
        text::split_char(phantun::install_script(program, url, sha256), '\n')
            == install_script_lines(program, url, sha256),
{
    let lines = install_script_lines(program, url, sha256);
    let nl = "\n"@;
    lemma_join_ten(lines, nl);
    assert(nl =~= seq!['\n']) by {
        reveal_strlit("\n");
    }
    lemma_install_pieces();
    lemma_install_regrouped(
        nl,
        "set -eu"@,
        "tmp=$(mktemp)"@,
        "trap 'rm -f \"$tmp\"' EXIT"@,
        "curl -fsSL --connect-timeout 15 --max-time 120 "@,
        shell::quoted(url),
        " -o \"$tmp\""@,
        "got=$(sha256sum \"$tmp\" | cut -d' ' -f1)"@,
        "if [ \"$got\" != "@,
        shell::quoted(sha256),
        " ]; then"@,
        "echo \""@,
        program,
        " sha256 不匹配\" >&2"@,
        "exit 1"@,
        "fi"@,
        "install -m 0755 \"$tmp\" /usr/local/bin/"@,
    );
    assert(phantun::install_script(program, url, sha256) == text::join(lines, nl));
    assert forall|i: int| 0 <= i < lines.len() implies !(#[trigger] lines[i]).contains('\n') by {
        lemma_install_lines_stand_alone(program, url, sha256, i);
    }
    text::lemma_split_joined(lines, '\n', nl);
}

/// A program is installed under its name exactly where the digest of what was fetched from its
/// address is the one that was asked for; then it is what was fetched. Else nothing on the
/// machine changes, and the script fails.
pub proof fn lemma_only_what_was_asked_for_is_installed(
    programs: Map<Seq<char>, Seq<char>>,
    program: Seq<char>,
    url: Seq<char>,
    sha256: Seq<char>,
    world: World,
)
    requires
        on_one_line(program),
        on_one_line(url),
        on_one_line(sha256),
    ensures
        ({
            let script = phantun::install_script(program, url, sha256);
            let end = install_lines(
                fresh_installer(programs),
                text::split_char(script, '\n'),
                world,
            );
            let fetched = (world.fetch)(url);
            if (world.digest)(fetched) == sha256 {
                end.ended is None && end.programs == programs.insert(program, fetched)
            } else {
                end.ended == Some(1int) && end.programs == programs
            }
        }),
{
    let lines = install_script_lines(program, url, sha256);
    lemma_install_text(program, url, sha256);
    let sh = fresh_installer(programs);
    let l0 = Seq::<Seq<char>>::empty();
    let l1 = l0.push(lines[0]);
    let l2 = l1.push(lines[1]);
    let l3 = l2.push(lines[2]);
    let l4 = l3.push(lines[3]);
    let l5 = l4.push(lines[4]);
    let l6 = l5.push(lines[5]);
    let l7 = l6.push(lines[6]);
    let l8 = l7.push(lines[7]);
    let l9 = l8.push(lines[8]);
    let l10 = l9.push(lines[9]);
    lemma_install_more(sh, l0, lines[0], world);
    lemma_install_more(sh, l1, lines[1], world);
    lemma_install_more(sh, l2, lines[2], world);
    lemma_install_more(sh, l3, lines[3], world);
    lemma_install_more(sh, l4, lines[4], world);
    lemma_install_more(sh, l5, lines[5], world);
    lemma_install_more(sh, l6, lines[6], world);
    lemma_install_more(sh, l7, lines[7], world);
    lemma_install_more(sh, l8, lines[8], world);
    lemma_install_more(sh, l9, lines[9], world);
    assert(l10 =~= lines);
    lemma_install_lines_differ(program, url, sha256);
    lemma_word_between("curl -fsSL --connect-timeout 15 --max-time 120 "@, url, " -o \"$tmp\""@);
    lemma_word_between("if [ \"$got\" != "@, sha256, " ]; then"@);
    let fetched = (world.fetch)(url);
    let same = (world.digest)(fetched) == sha256;
    assert(install_lines(sh, l0, world) == sh);
    assert(install_lines(sh, l1, world) == sh);
    assert(install_lines(sh, l2, world) == sh);
    assert(install_lines(sh, l3, world) == sh);
    let s4 = Installer { fetched, ..sh };
    assert(install_lines(sh, l4, world) == s4);
    let s5 = Installer { got: (world.digest)(fetched), ..s4 };
    assert(install_lines(sh, l5, world) == s5);
    let s6 = Installer { skips: same, ..s5 };
    assert(install_lines(sh, l6, world) == s6);
    assert(install_lines(sh, l7, world) == s6);
    let s8 = if same {
        s6
    } else {
        Installer { ended: Some(1), ..s6 }
    };
    assert(install_lines(sh, l8, world) == s8);
    let s9 = if same {
        Installer { skips: false, ..s8 }
    } else {
        s8
    };
    assert(install_lines(sh, l9, world) == s9);
    assert(lines[9].skip("install -m 0755 \"$tmp\" /usr/local/bin/"@.len() as int) =~= program);
    let s10 = if same {
        Installer { programs: programs.insert(program, fetched), ..s9 }
    } else {
        s9
    };
    assert(install_lines(sh, l10, world) == s10);
}

proof fn lemma_install_lines_differ(program: Seq<char>, url: Seq<char>, sha256: Seq<char>)
    ensures
        ({
            let lines = install_script_lines(program, url, sha256);
            let plain = |line: Seq<char>|
                line != "set -eu"@ && line != "tmp=$(mktemp)"@ && line
                    != "trap 'rm -f \"$tmp\"' EXIT"@ && line != "fi"@ && !text::starts_with(line, "echo \""@);
            &&& plain(lines[3]) && lines[3] != "exit 1"@ && lines[3] != "got=$(sha256sum \"$tmp\" | cut -d' ' -f1)"@
            &&& plain(lines[4]) && lines[4] != "exit 1"@
            &&& plain(lines[5]) && lines[5] != "exit 1"@ && lines[5] != "got=$(sha256sum \"$tmp\" | cut -d' ' -f1)"@ && between(lines[5], "curl -fsSL --connect-timeout 15 --max-time 120 "@, " -o \"$tmp\""@) is None
            &&& text::starts_with(lines[6], "echo \""@) && lines[6] != "fi"@
            &&& plain(lines[7]) && lines[7] != "fi"@
            &&& plain(lines[9]) && lines[9] != "exit 1"@ && lines[9] != "got=$(sha256sum \"$tmp\" | cut -d' ' -f1)"@ && between(lines[9], "curl -fsSL --connect-timeout 15 --max-time 120 "@, " -o \"$tmp\""@) is None
            &&& between(lines[9], "if [ \"$got\" != "@, " ]; then"@) is None
            &&& text::starts_with(lines[9], "install -m 0755 \"$tmp\" /usr/local/bin/"@)
        }),
{
    reveal_strlit("set -eu");
    reveal_strlit("tmp=$(mktemp)");
    reveal_strlit("trap 'rm -f \"$tmp\"' EXIT");
    reveal_strlit("fi");
    reveal_strlit("echo \"");
    reveal_strlit("exit 1");
    reveal_strlit("got=$(sha256sum \"$tmp\" | cut -d' ' -f1)");
    reveal_strlit("curl -fsSL --connect-timeout 15 --max-time 120 ");
    reveal_strlit(" -o \"$tmp\"");
    reveal_strlit("if [ \"$got\" != ");
    reveal_strlit(" ]; then");
    reveal_strlit("install -m 0755 \"$tmp\" /usr/local/bin/");
    let lines = install_script_lines(program, url, sha256);
    let fetch = lines[3];
    let test = lines[5];
    let say = lines[6];
    let put = lines[9];
    assert(fetch[0] == 'c' && test[0] == 'i' && test[1] == 'f' && test[2] == ' ' && say[0] == 'e'
        && say[1] == 'c' && put[0] == 'i' && put[1] == 'n');
    assert("set -eu"@[0] == 's' && "tmp=$(mktemp)"@[0] == 't' && "trap 'rm -f \"$tmp\"' EXIT"@[0] == 't' && "fi"@[0] == 'f' && "echo \""@[0] == 'e' && "exit 1"@[0] == 'e'
        && "exit 1"@[1] == 'x' && "got=$(sha256sum \"$tmp\" | cut -d' ' -f1)"@[0] == 'g');
    assert("echo \""@[1] == 'c');
    lemma_other_opening(fetch, "echo \""@, 0);
    lemma_other_opening("got=$(sha256sum \"$tmp\" | cut -d' ' -f1)"@, "echo \""@, 0);
    lemma_other_opening(test, "echo \""@, 0);
    lemma_other_opening(put, "echo \""@, 0);
    lemma_other_opening("exit 1"@, "echo \""@, 1);
    lemma_other_opening(test, "curl -fsSL --connect-timeout 15 --max-time 120 "@, 0);
    lemma_other_opening(put, "curl -fsSL --connect-timeout 15 --max-time 120 "@, 0);
    lemma_other_opening(put, "if [ \"$got\" != "@, 1);
    assert(say.subrange(0, "echo \""@.len() as int) =~= "echo \""@);
    assert(put.subrange(0, "install -m 0755 \"$tmp\" /usr/local/bin/"@.len() as int) =~= "install -m 0755 \"$tmp\" /usr/local/bin/"@);
}

/// What is done in a round of waiting.
pub enum Wait {
    /// The script succeeds where the port is listened on.
    UpOrOn,
    /// Waiting ends where the process is gone.
    AliveOrEnd,
    Sleep,
}

/// How a started program behaves: whether its port is listened on, and whether it is alive,
/// after so many naps.
pub struct Program {
    pub listens: spec_fn(nat) -> bool,
    pub alive: spec_fn(nat) -> bool,
}

/// A shell that starts a program and waits for it.
#[verifier::ext_equal]
pub struct Starter {
    /// The command line that was started.
    pub started: Option<Seq<char>>,
    /// Whether that is the process that is looked at.
    pub watched: bool,
    /// How far the definition of the test has come; three where it is complete.
    pub defined: int,
    /// The port that the test looks for.
    pub port: Seq<char>,
    pub loops: bool,
    pub round: Seq<Wait>,
    /// The log that was shown.
    pub shown: Option<Seq<char>>,
    /// The code that it ended with.
    pub ended: Option<int>,
}

/// Whether the waits of a round, from one on, lead to success (`Some(true)`), to an end of the
/// waiting (`Some(false)`), or on.
pub open spec fn round_ends(round: Seq<Wait>, i: int, program: Program, naps: nat) -> Option<bool>
    decreases round.len() - i,
{
    if i < 0 || i >= round.len() {
        None
    } else {
        match round[i] {
            Wait::UpOrOn => if (program.listens)(naps) {
                Some(true)
            } else {
                round_ends(round, i + 1, program, naps)
            },
            Wait::AliveOrEnd => if (program.alive)(naps) {
                round_ends(round, i + 1, program, naps)
            } else {
                Some(false)
            },
            Wait::Sleep => round_ends(round, i + 1, program, naps + 1),
        }
    }
}

/// How many naps a round takes.
pub open spec fn naps_in(round: Seq<Wait>) -> nat
    decreases round.len(),
{
    if round.len() == 0 {
        0
    } else {
        naps_in(round.drop_last()) + (if round.last() is Sleep {
            1nat
        } else {
            0
        })
    }
}

/// Whether rounds lead to success, with so many left.
pub open spec fn succeeds(round: Seq<Wait>, program: Program, naps: nat, left: nat) -> bool
    decreases left,
{
    if left == 0 {
        false
    } else {
        match round_ends(round, 0, program, naps) {
            Some(up) => up,
            None => succeeds(round, program, naps + naps_in(round), (left - 1) as nat),
        }
    }
}

/// What it does at a line. A line that is none of those it knows, or that comes where it makes
/// no sense, ends it.
pub open spec fn start_line(sh: Starter, line: Seq<char>, program: Program) -> Starter {
    if sh.ended is Some {
        sh
    } else if sh.defined == 1 {
        match between(line, "if command -v ss >/dev/null 2>&1; then ss -ltn 2>/dev/null | grep -q ':"@, " ';"@) {
            Some(port) => Starter { defined: 2, port, ..sh },
            None => Starter { ended: Some(2), ..sh },
        }
    } else if sh.defined == 2 {
        if line == "else netstat -ltn 2>/dev/null | grep -q ':"@ + sh.port + " '; fi"@ {
            Starter { defined: 3, ..sh }
        } else {
            Starter { ended: Some(2), ..sh }
        }
    } else if sh.loops {
        if line == "port_up && exit 0"@ && sh.defined == 4 {
            Starter { round: sh.round.push(Wait::UpOrOn), ..sh }
        } else if line == "kill -0 \"$launcher\" 2>/dev/null || break"@ && sh.watched {
            Starter { round: sh.round.push(Wait::AliveOrEnd), ..sh }
        } else if line == "sleep 0.05"@ {
            Starter { round: sh.round.push(Wait::Sleep), ..sh }
        } else if line == "done"@ {
            if succeeds(sh.round, program, 0, 400) {
                Starter { ended: Some(0), loops: false, ..sh }
            } else {
                Starter { loops: false, ..sh }
            }
        } else {
            Starter { ended: Some(2), ..sh }
        }
    } else if line == "set -eu"@ {
        sh
    } else if word_between(line, "nohup sh -c "@, " >/dev/null 2>&1 &"@) is Some {
        Starter {
            started: word_between(line, "nohup sh -c "@, " >/dev/null 2>&1 &"@),
            ..sh
        }
    } else if line == "launcher=$!"@ && sh.started is Some {
        Starter { watched: true, ..sh }
    } else if line == "port_up() {"@ && sh.defined == 0 {
        Starter { defined: 1, ..sh }
    } else if line == "}"@ && sh.defined == 3 {
        Starter { defined: 4, ..sh }
    } else if line == "for _ in $(seq 1 400); do"@ {
        Starter { loops: true, ..sh }
    } else if word_between(line, "cat "@, " 2>/dev/null || true"@) is Some {
        Starter { shown: word_between(line, "cat "@, " 2>/dev/null || true"@), ..sh }
    } else if line == "exit 1"@ {
        Starter { ended: Some(1), ..sh }
    } else {
        Starter { ended: Some(2), ..sh }
    }
}

/// What it does at lines, one after the other.
pub open spec fn start_lines(sh: Starter, lines: Seq<Seq<char>>, program: Program) -> Starter
    decreases lines.len(),
{
    if lines.len() == 0 {
        sh
    } else {
        start_line(start_lines(sh, lines.drop_last(), program), lines.last(), program)
    }
}

/// A shell that has done nothing.
pub open spec fn fresh_starter() -> Starter {
    Starter {
        started: None,
        watched: false,
        defined: 0,
        port: seq![],
        loops: false,
        round: seq![],
        shown: None,
        ended: None,
    }
}

proof fn lemma_start_more(sh: Starter, lines: Seq<Seq<char>>, line: Seq<char>, program: Program)
    ensures
        start_lines(sh, lines.push(line), program) == start_line(
            start_lines(sh, lines, program),
            line,
            program,
        ),
{
    assert(lines.push(line).drop_last() =~= lines);
}

spec fn launch_script_lines(pipeline: Seq<char>, log: Seq<char>, port: Seq<char>) -> Seq<Seq<char>> {
    seq![
        "set -eu"@,
        "nohup sh -c "@ + shell::quoted(pipeline) + " >/dev/null 2>&1 &"@,
        "launcher=$!"@,
        "port_up() {"@,
        "if command -v ss >/dev/null 2>&1; then ss -ltn 2>/dev/null | grep -q ':"@ + port + " ';"@,
        "else netstat -ltn 2>/dev/null | grep -q ':"@ + port + " '; fi"@,
        "}"@,
        "for _ in $(seq 1 400); do"@,
        "port_up && exit 0"@,
        "kill -0 \"$launcher\" 2>/dev/null || break"@,
        "sleep 0.05"@,
        "done"@,
        "cat "@ + shell::quoted(log) + " 2>/dev/null || true"@,
        "exit 1"@,
    ]
}

proof fn lemma_join_fourteen(all: Seq<Seq<char>>, nl: Seq<char>)
    requires
        all.len() == 14,
    ensures
        text::join(all, nl) == all[0] + nl + all[1] + nl + all[2] + nl + all[3] + nl + all[4] + nl + all[5] + nl + all[6] + nl + all[7] + nl + all[8] + nl + all[9] + nl + all[10] + nl + all[11] + nl + all[12] + nl + all[13],
{
    let a1 = seq![all[0]];
    let a2 = a1.push(all[1]);
    let a3 = a2.push(all[2]);
    let a4 = a3.push(all[3]);
    let a5 = a4.push(all[4]);
    let a6 = a5.push(all[5]);
    let a7 = a6.push(all[6]);
    let a8 = a7.push(all[7]);
    let a9 = a8.push(all[8]);
    let a10 = a9.push(all[9]);
    let a11 = a10.push(all[10]);
    let a12 = a11.push(all[11]);
    let a13 = a12.push(all[12]);
    let a14 = a13.push(all[13]);
    text::lemma_join_one_more(a1, all[1], nl);
    text::lemma_join_one_more(a2, all[2], nl);
    text::lemma_join_one_more(a3, all[3], nl);
    text::lemma_join_one_more(a4, all[4], nl);
    text::lemma_join_one_more(a5, all[5], nl);
    text::lemma_join_one_more(a6, all[6], nl);
    text::lemma_join_one_more(a7, all[7], nl);
    text::lemma_join_one_more(a8, all[8], nl);
    text::lemma_join_one_more(a9, all[9], nl);
    text::lemma_join_one_more(a10, all[10], nl);
    text::lemma_join_one_more(a11, all[11], nl);
    text::lemma_join_one_more(a12, all[12], nl);
    text::lemma_join_one_more(a13, all[13], nl);
    assert(a14 =~= all);
}

proof fn lemma_launch_pieces()
    ensures
        "set -eu\nnohup sh -c "@ == "set -eu"@ + "\n"@ + "nohup sh -c "@,
        " >/dev/null 2>&1 &\nlauncher=$!\nport_up() {\nif command -v ss >/dev/null 2>&1; then ss -ltn 2>/dev/null | grep -q ':"@ == " >/dev/null 2>&1 &"@ + "\n"@ + "launcher=$!"@ + "\n"@ + "port_up() {"@ + "\n"@ + "if command -v ss >/dev/null 2>&1; then ss -ltn 2>/dev/null | grep -q ':"@,
        " ';\nelse netstat -ltn 2>/dev/null | grep -q ':"@ == " ';"@ + "\n"@ + "else netstat -ltn 2>/dev/null | grep -q ':"@,
        " '; fi\n}\nfor _ in $(seq 1 400); do\nport_up && exit 0\nkill -0 \"$launcher\" 2>/dev/null || break\nsleep 0.05\ndone\ncat "@ == " '; fi"@ + "\n"@ + "}"@ + "\n"@ + "for _ in $(seq 1 400); do"@ + "\n"@ + "port_up && exit 0"@ + "\n"@ + "kill -0 \"$launcher\" 2>/dev/null || break"@ + "\n"@ + "sleep 0.05"@ + "\n"@ + "done"@ + "\n"@ + "cat "@,
        " 2>/dev/null || true\nexit 1"@ == " 2>/dev/null || true"@ + "\n"@ + "exit 1"@,
{
    reveal_strlit("\n");
    reveal_strlit("set -eu");
    reveal_strlit("nohup sh -c ");
    reveal_strlit(" >/dev/null 2>&1 &");
    reveal_strlit("launcher=$!");
    reveal_strlit("port_up() {");
    reveal_strlit("if command -v ss >/dev/null 2>&1; then ss -ltn 2>/dev/null | grep -q ':");
    reveal_strlit(" ';");
    reveal_strlit("else netstat -ltn 2>/dev/null | grep -q ':");
    reveal_strlit(" '; fi");
    reveal_strlit("}");
    reveal_strlit("for _ in $(seq 1 400); do");
    reveal_strlit("port_up && exit 0");
    reveal_strlit("kill -0 \"$launcher\" 2>/dev/null || break");
    reveal_strlit("sleep 0.05");
    reveal_strlit("done");
    reveal_strlit("cat ");
    reveal_strlit(" 2>/dev/null || true");
    reveal_strlit("exit 1");
    reveal_strlit("set -eu\nnohup sh -c ");
    reveal_strlit(" >/dev/null 2>&1 &\nlauncher=$!\nport_up() {\nif command -v ss >/dev/null 2>&1; then ss -ltn 2>/dev/null | grep -q ':");
    reveal_strlit(" ';\nelse netstat -ltn 2>/dev/null | grep -q ':");
    reveal_strlit(" '; fi\n}\nfor _ in $(seq 1 400); do\nport_up && exit 0\nkill -0 \"$launcher\" 2>/dev/null || break\nsleep 0.05\ndone\ncat ");
    reveal_strlit(" 2>/dev/null || true\nexit 1");
}

proof fn lemma_launch_lines_stand_alone(pipeline: Seq<char>, log: Seq<char>, port: Seq<char>, i: int)
    requires
        on_one_line(pipeline),
        on_one_line(log),
        on_one_line(port),
        0 <= i < 14,
    ensures
        on_one_line(launch_script_lines(pipeline, log, port)[i]),
{
    reveal_strlit("set -eu");
    reveal_strlit("nohup sh -c ");
    reveal_strlit(" >/dev/null 2>&1 &");
    reveal_strlit("launcher=$!");
    reveal_strlit("port_up() {");
    reveal_strlit("if command -v ss >/dev/null 2>&1; then ss -ltn 2>/dev/null | grep -q ':");
    reveal_strlit(" ';");
    reveal_strlit("else netstat -ltn 2>/dev/null | grep -q ':");
    reveal_strlit(" '; fi");
    reveal_strlit("}");
    reveal_strlit("for _ in $(seq 1 400); do");
    reveal_strlit("port_up && exit 0");
    reveal_strlit("kill -0 \"$launcher\" 2>/dev/null || break");
    reveal_strlit("sleep 0.05");
    reveal_strlit("done");
    reveal_strlit("cat ");
    reveal_strlit(" 2>/dev/null || true");
    reveal_strlit("exit 1");
    lemma_quoted_on_one_line(pipeline);
    lemma_quoted_on_one_line(log);
    lemma_one_line("nohup sh -c "@, shell::quoted(pipeline));
    lemma_one_line("nohup sh -c "@ + shell::quoted(pipeline), " >/dev/null 2>&1 &"@);
    lemma_one_line("if command -v ss >/dev/null 2>&1; then ss -ltn 2>/dev/null | grep -q ':"@, port);
    lemma_one_line("if command -v ss >/dev/null 2>&1; then ss -ltn 2>/dev/null | grep -q ':"@ + port, " ';"@);
    lemma_one_line("else netstat -ltn 2>/dev/null | grep -q ':"@, port);
    lemma_one_line("else netstat -ltn 2>/dev/null | grep -q ':"@ + port, " '; fi"@);
    lemma_one_line("cat "@, shell::quoted(log));
    lemma_one_line("cat "@ + shell::quoted(log), " 2>/dev/null || true"@);
}

#[verifier::spinoff_prover]
#[verifier::rlimit(40)]
proof fn lemma_launch_regrouped(
    n: Seq<char>,
    a: Seq<char>,
    b: Seq<char>,
    pipeline: Seq<char>,
    c: Seq<char>,
    d: Seq<char>,
    e: Seq<char>,
    f: Seq<char>,
    port: Seq<char>,
    g: Seq<char>,
    h: Seq<char>,
    i: Seq<char>,
    rest: Seq<char>,
    log: Seq<char>,
    j: Seq<char>,
    k: Seq<char>,
)
    ensures
        (a + n + b) + pipeline + (c + n + d + n + e + n + f) + port + (g + n + h) + port + (i + n
            + rest) + log + (j + n + k) == a + n + (b + pipeline + c) + n + d + n + e + n + (f + port
            + g) + n + (h + port + i) + n + (rest + log + j) + n + k,
{
}

#[verifier::spinoff_prover]
#[verifier::rlimit(40)]
proof fn lemma_waiting_regrouped(
    n: Seq<char>,
    a: Seq<char>,
    b: Seq<char>,
    c: Seq<char>,
    d: Seq<char>,
    e: Seq<char>,
    f: Seq<char>,
    g: Seq<char>,
    tail: Seq<char>,
    head: Seq<char>,
    i: Seq<char>,
)
    ensures
        i + n + a + n + b + n + c + n + d + n + e + n + f + n + g == i + n + (a + n + b + n + c + n + d
            + n + e + n + f + n + g),
        head + n + (a + n + b + n + c + n + d + n + e + n + f + n + g + tail) == head + n + a + n + b
            + n + c + n + d + n + e + n + f + n + (g + tail),
{
}

proof fn lemma_launch_text(pipeline: Seq<char>, log: Seq<char>, api_port: u16)
    requires
        on_one_line(pipeline),
        on_one_line(log),
    ensures
        text::split_char(converge::launch_script(pipeline, log, api_port), '\n')
            == launch_script_lines(pipeline, log, numbers::decimal(api_port as int)),
{
    let port = numbers::decimal(api_port as int);
    let lines = launch_script_lines(pipeline, log, port);
    let nl = "\n"@;
    lemma_join_fourteen(lines, nl);
    assert(nl =~= seq!['\n']) by {
        reveal_strlit("\n");
    }
    lemma_launch_pieces();
    let (pq, lq) = (shell::quoted(pipeline), shell::quoted(log));
    let head = "set -eu"@ + nl + lines[1] + nl + "launcher=$!"@ + nl + "port_up() {"@ + nl + lines[4]
        + nl + lines[5];
    let rest = "}"@ + nl + "for _ in $(seq 1 400); do"@ + nl + "port_up && exit 0"@ + nl + "kill -0 \"$launcher\" 2>/dev/null || break"@ + nl + "sleep 0.05"@ + nl
        + "done"@ + nl + "cat "@;
    lemma_launch_regrouped(
        nl,
        "set -eu"@,
        "nohup sh -c "@,
        pq,
        " >/dev/null 2>&1 &"@,
        "launcher=$!"@,
        "port_up() {"@,
        "if command -v ss >/dev/null 2>&1; then ss -ltn 2>/dev/null | grep -q ':"@,
        port,
        " ';"@,
        "else netstat -ltn 2>/dev/null | grep -q ':"@,
        " '; fi"@,
        rest,
        lq,
        " 2>/dev/null || true"@,
        "exit 1"@,
    );
    lemma_waiting_regrouped(
        nl,
        "}"@,
        "for _ in $(seq 1 400); do"@,
        "port_up && exit 0"@,
        "kill -0 \"$launcher\" 2>/dev/null || break"@,
        "sleep 0.05"@,
        "done"@,
        "cat "@,
        lq + " 2>/dev/null || true"@,
        head,
        " '; fi"@,
    );
    assert(rest + lq + " 2>/dev/null || true"@ =~= rest + (lq + " 2>/dev/null || true"@));
    assert("cat "@ + lq + " 2>/dev/null || true"@ =~= "cat "@ + (lq + " 2>/dev/null || true"@));
    assert(converge::launch_script(pipeline, log, api_port) == text::join(lines, nl));
    numbers::lemma_decimal_digits(api_port as int);
    assert forall|i: int| 0 <= i < lines.len() implies !(#[trigger] lines[i]).contains('\n') by {
        lemma_launch_lines_stand_alone(pipeline, log, port, i);
    }
    text::lemma_split_joined(lines, '\n', nl);
}

/// Whether a program came up: at some look its port was listened on, and at every look before
/// that it was alive.
pub open spec fn came_up(program: Program, looks: nat) -> bool {
    exists|k: nat| k < looks && #[trigger] (program.listens)(k) && forall|j: nat|
        j < k ==> #[trigger] (program.alive)(j)
}

proof fn lemma_waiting(program: Program, naps: nat, left: nat)
    ensures
        succeeds(seq![Wait::UpOrOn, Wait::AliveOrEnd, Wait::Sleep], program, naps, left) <==> exists|
            k: nat,
        |
            naps <= k < naps + left && #[trigger] (program.listens)(k) && forall|j: nat|
                naps <= j < k ==> #[trigger] (program.alive)(j),
    decreases left,
{
    let round = seq![Wait::UpOrOn, Wait::AliveOrEnd, Wait::Sleep];
    reveal_with_fuel(round_ends, 4);
    reveal_with_fuel(naps_in, 4);
    assert(round.drop_last() =~= seq![Wait::UpOrOn, Wait::AliveOrEnd]);
    assert(round.drop_last().drop_last() =~= seq![Wait::UpOrOn]);
    assert(round.drop_last().drop_last().drop_last() =~= Seq::<Wait>::empty());
    assert(naps_in(round) == 1);
    if left > 0 {
        lemma_waiting(program, naps + 1, (left - 1) as nat);
        let goal = exists|k: nat|
            naps <= k < naps + left && #[trigger] (program.listens)(k) && forall|j: nat|
                naps <= j < k ==> #[trigger] (program.alive)(j);
        if (program.listens)(naps) {
            assert(goal);
        } else if !(program.alive)(naps) {
            assert(!goal);
        } else {
            if succeeds(round, program, naps + 1, (left - 1) as nat) {
                let k = choose|k: nat|
                    naps + 1 <= k < naps + 1 + (left - 1) && #[trigger] (program.listens)(k)
                        && forall|j: nat| naps + 1 <= j < k ==> #[trigger] (program.alive)(j);
                assert((program.listens)(k));
                assert(goal);
            }
            if goal {
                let k = choose|k: nat|
                    naps <= k < naps + left && #[trigger] (program.listens)(k) && forall|j: nat|
                        naps <= j < k ==> #[trigger] (program.alive)(j);
                assert((program.listens)(k));
            }
        }
    }
}

/// The proxy is started with its command line; the script succeeds exactly where its port is
/// listened on at one of four hundred looks and the process was alive at each before. Else it
/// shows the log and fails.
pub proof fn lemma_start_succeeds_once_the_port_is_up(
    pipeline: Seq<char>,
    log: Seq<char>,
    api_port: u16,
    program: Program,
)
    requires
        on_one_line(pipeline),
        on_one_line(log),
    ensures
        ({
            let script = converge::launch_script(pipeline, log, api_port);
            let end = start_lines(fresh_starter(), text::split_char(script, '\n'), program);
            &&& end.started == Some(pipeline)
            &&& end.port == numbers::decimal(api_port as int)
            &&& came_up(program, 400) ==> end.ended == Some(0int)
            &&& !came_up(program, 400) ==> end.ended == Some(1int) && end.shown == Some(log)
        }),
{
    let port = numbers::decimal(api_port as int);
    let lines = launch_script_lines(pipeline, log, port);
    lemma_launch_text(pipeline, log, api_port);
    let sh = fresh_starter();
    let l0 = Seq::<Seq<char>>::empty();
    let l1 = l0.push(lines[0]);
    let l2 = l1.push(lines[1]);
    let l3 = l2.push(lines[2]);
    let l4 = l3.push(lines[3]);
    let l5 = l4.push(lines[4]);
    let l6 = l5.push(lines[5]);
    let l7 = l6.push(lines[6]);
    let l8 = l7.push(lines[7]);
    let l9 = l8.push(lines[8]);
    let l10 = l9.push(lines[9]);
    let l11 = l10.push(lines[10]);
    let l12 = l11.push(lines[11]);
    let l13 = l12.push(lines[12]);
    let l14 = l13.push(lines[13]);
    lemma_start_more(sh, l0, lines[0], program);
    lemma_start_more(sh, l1, lines[1], program);
    lemma_start_more(sh, l2, lines[2], program);
    lemma_start_more(sh, l3, lines[3], program);
    lemma_start_more(sh, l4, lines[4], program);
    lemma_start_more(sh, l5, lines[5], program);
    lemma_start_more(sh, l6, lines[6], program);
    lemma_start_more(sh, l7, lines[7], program);
    lemma_start_more(sh, l8, lines[8], program);
    lemma_start_more(sh, l9, lines[9], program);
    lemma_start_more(sh, l10, lines[10], program);
    lemma_start_more(sh, l11, lines[11], program);
    lemma_start_more(sh, l12, lines[12], program);
    lemma_start_more(sh, l13, lines[13], program);
    assert(l14 =~= lines);
    lemma_launch_lines_differ(pipeline, log, port);
    lemma_word_between("nohup sh -c "@, pipeline, " >/dev/null 2>&1 &"@);
    lemma_word_between("cat "@, log, " 2>/dev/null || true"@);
    lemma_between("if command -v ss >/dev/null 2>&1; then ss -ltn 2>/dev/null | grep -q ':"@, port, " ';"@);
    assert(start_lines(sh, l0, program) == sh);
    assert(start_lines(sh, l1, program) == sh);
    let s2 = Starter { started: Some(pipeline), ..sh };
    assert(start_lines(sh, l2, program) == s2);
    let s3 = Starter { watched: true, ..s2 };
    assert(start_lines(sh, l3, program) == s3);
    let s4 = Starter { defined: 1, ..s3 };
    assert(start_lines(sh, l4, program) == s4);
    let s5 = Starter { defined: 2, port, ..s4 };
    assert(start_lines(sh, l5, program) == s5);
    let s6 = Starter { defined: 3, ..s5 };
    assert(start_lines(sh, l6, program) == s6);
    let s7 = Starter { defined: 4, ..s6 };
    assert(start_lines(sh, l7, program) == s7);
    let s8 = Starter { loops: true, ..s7 };
    assert(start_lines(sh, l8, program) == s8);
    let s9 = Starter { round: sh.round.push(Wait::UpOrOn), ..s8 };
    assert(start_lines(sh, l9, program) == s9);
    let s10 = Starter { round: s9.round.push(Wait::AliveOrEnd), ..s9 };
    assert(start_lines(sh, l10, program) == s10);
    let s11 = Starter { round: s10.round.push(Wait::Sleep), ..s10 };
    assert(start_lines(sh, l11, program) == s11);
    assert(s11.round =~= seq![Wait::UpOrOn, Wait::AliveOrEnd, Wait::Sleep]);
    lemma_waiting(program, 0, 400);
    let up = succeeds(s11.round, program, 0, 400);
    assert(up == came_up(program, 400)) by {
        if up {
            let k = choose|k: nat|
                0 <= k < 0 + 400 && #[trigger] (program.listens)(k) && forall|j: nat|
                    0 <= j < k ==> #[trigger] (program.alive)(j);
            assert((program.listens)(k));
        }
        if came_up(program, 400) {
            let k = choose|k: nat|
                k < 400 && #[trigger] (program.listens)(k) && forall|j: nat|
                    j < k ==> #[trigger] (program.alive)(j);
            assert((program.listens)(k));
        }
    }
    let s12 = if up {
        Starter { ended: Some(0), loops: false, ..s11 }
    } else {
        Starter { loops: false, ..s11 }
    };
    assert(start_lines(sh, l12, program) == s12);
    let s13 = if up {
        s12
    } else {
        Starter { shown: Some(log), ..s12 }
    };
    assert(start_lines(sh, l13, program) == s13);
    let s14 = if up {
        s13
    } else {
        Starter { ended: Some(1), ..s13 }
    };
    assert(start_lines(sh, l14, program) == s14);
}

proof fn lemma_launch_lines_differ(pipeline: Seq<char>, log: Seq<char>, port: Seq<char>)
    ensures
        ({
            let lines = launch_script_lines(pipeline, log, port);
            let unstarted = |line: Seq<char>|
                line != "set -eu"@ && between(line, "nohup sh -c "@, " >/dev/null 2>&1 &"@) is None;
            &&& lines[1] != "set -eu"@
            &&& unstarted(lines[2]) && unstarted(lines[3]) && lines[3] != "launcher=$!"@
            &&& unstarted(lines[6]) && lines[6] != "launcher=$!"@ && lines[6] != "port_up() {"@
            &&& unstarted(lines[7]) && lines[7] != "launcher=$!"@ && lines[7] != "port_up() {"@
                && lines[7] != "}"@
            &&& lines[9] != lines[8]
            &&& lines[10] != lines[8] && lines[10] != lines[9]
            &&& lines[11] != lines[8] && lines[11] != lines[9] && lines[11] != lines[10]
            &&& unstarted(lines[12]) && lines[12] != "launcher=$!"@ && lines[12] != "port_up() {"@
                && lines[12] != "}"@ && lines[12] != lines[7]
            &&& unstarted(lines[13]) && lines[13] != "launcher=$!"@ && lines[13] != "port_up() {"@
                && lines[13] != "}"@ && lines[13] != lines[7] && between(lines[13], "cat "@, " 2>/dev/null || true"@) is None
        }),
{
    reveal_strlit("set -eu");
    reveal_strlit("nohup sh -c ");
    reveal_strlit("launcher=$!");
    reveal_strlit("port_up() {");
    reveal_strlit("}");
    reveal_strlit("for _ in $(seq 1 400); do");
    reveal_strlit("port_up && exit 0");
    reveal_strlit("kill -0 \"$launcher\" 2>/dev/null || break");
    reveal_strlit("sleep 0.05");
    reveal_strlit("done");
    reveal_strlit("cat ");
    reveal_strlit("exit 1");
    let lines = launch_script_lines(pipeline, log, port);
    assert(lines[1][0] == 'n' && lines[12][0] == 'c' && "set -eu"@[0] == 's' && "launcher=$!"@[0]
        == 'l' && "port_up() {"@[0] == 'p' && "}"@[0] == '}' && lines[7][0] == 'f' && lines[8][0]
        == 'p' && lines[9][0] == 'k' && lines[10][0] == 's' && lines[11][0] == 'd' && lines[13][0]
        == 'e');
    lemma_other_opening(lines[2], "nohup sh -c "@, 0);
    lemma_other_opening(lines[3], "nohup sh -c "@, 0);
    lemma_other_opening(lines[6], "nohup sh -c "@, 0);
    lemma_other_opening(lines[7], "nohup sh -c "@, 0);
    lemma_other_opening(lines[12], "nohup sh -c "@, 0);
    lemma_other_opening(lines[13], "nohup sh -c "@, 0);
    lemma_other_opening(lines[13], "cat "@, 0);
}

/// The proxy's command line: it is run with its configuration, with splice switched off
/// exactly where that is asked for, and everything it says goes to the sink.
pub proof fn lemma_command_line_of_the_proxy(conf: Seq<char>, disable_splice: bool, sink: Seq<char>)
    ensures
        ({
            let line = converge::xray_pipeline(conf, disable_splice, sink);
            let ending = " 2>&1 | "@ + sink;
            &&& disable_splice <==> word_between(line, "env 'xray.buf.splice=disable' xray run -config "@, ending) == Some(conf)
            &&& !disable_splice <==> word_between(line, "xray run -config "@, ending) == Some(conf)
        }),
{
    let line = converge::xray_pipeline(conf, disable_splice, sink);
    let ending = " 2>&1 | "@ + sink;
    let (off, on) = ("env 'xray.buf.splice=disable' xray run -config "@, "xray run -config "@);
    reveal_strlit("env 'xray.buf.splice=disable' xray run -config ");
    reveal_strlit("xray run -config ");
    lemma_word_between(off, conf, ending);
    lemma_word_between(on, conf, ending);
    assert(off[0] == 'e' && on[0] == 'x');
    if disable_splice {
        assert(line =~= off + shell::quoted(conf) + ending);
        lemma_other_opening(line, on, 0);
    } else {
        assert(line =~= on + shell::quoted(conf) + ending);
        lemma_other_opening(line, off, 0);
    }
}

/// The programs that still run after a line: one that ends all processes of a name leaves none
/// of them, and one that waits changes nothing. At a line that it does not know nothing is
/// known to have ended.
pub open spec fn ended_by(running: Set<Seq<char>>, line: Seq<char>) -> Set<Seq<char>> {
    match between(line, "pkill -x "@, " 2>/dev/null || true"@) {
        Some(name) => running.remove(name),
        None => running,
    }
}

/// The programs that still run after lines, one after the other.
pub open spec fn ended_by_all(running: Set<Seq<char>>, lines: Seq<Seq<char>>) -> Set<Seq<char>>
    decreases lines.len(),
{
    if lines.len() == 0 {
        running
    } else {
        ended_by(ended_by_all(running, lines.drop_last()), lines.last())
    }
}

proof fn lemma_ended_more(running: Set<Seq<char>>, lines: Seq<Seq<char>>, line: Seq<char>)
    ensures
        ended_by_all(running, lines.push(line)) == ended_by(ended_by_all(running, lines), line),
{
    assert(lines.push(line).drop_last() =~= lines);
}

proof fn lemma_kill_text()
    ensures
        text::split_char(phantun::kill_script(), '\n') == seq![
            "pkill -x phantun-server 2>/dev/null || true"@,
            "pkill -x phantun-client 2>/dev/null || true"@,
            "for _ in $(seq 1 20); do"@,
            "pgrep -x phantun-server >/dev/null 2>&1 || pgrep -x phantun-client >/dev/null 2>&1 || break"@,
            "sleep 0.25"@,
            "done"@,
        ],
{
    let all = seq![
        "pkill -x phantun-server 2>/dev/null || true"@,
        "pkill -x phantun-client 2>/dev/null || true"@,
        "for _ in $(seq 1 20); do"@,
        "pgrep -x phantun-server >/dev/null 2>&1 || pgrep -x phantun-client >/dev/null 2>&1 || break"@,
        "sleep 0.25"@,
        "done"@,
    ];
    let nl = "\n"@;
    let a1 = seq![all[0]];
    let a2 = a1.push(all[1]);
    let a3 = a2.push(all[2]);
    let a4 = a3.push(all[3]);
    let a5 = a4.push(all[4]);
    let a6 = a5.push(all[5]);
    text::lemma_join_one_more(a1, all[1], nl);
    text::lemma_join_one_more(a2, all[2], nl);
    text::lemma_join_one_more(a3, all[3], nl);
    text::lemma_join_one_more(a4, all[4], nl);
    text::lemma_join_one_more(a5, all[5], nl);
    assert(a6 =~= all);
    reveal_strlit("\n");
    reveal_strlit("pkill -x phantun-server 2>/dev/null || true");
    reveal_strlit("pkill -x phantun-client 2>/dev/null || true");
    reveal_strlit("for _ in $(seq 1 20); do");
    reveal_strlit("pgrep -x phantun-server >/dev/null 2>&1 || pgrep -x phantun-client >/dev/null 2>&1 || break");
    reveal_strlit("sleep 0.25");
    reveal_strlit("done");
    reveal_strlit("pkill -x phantun-server 2>/dev/null || true\npkill -x phantun-client 2>/dev/null || true\nfor _ in $(seq 1 20); do\npgrep -x phantun-server >/dev/null 2>&1 || pgrep -x phantun-client >/dev/null 2>&1 || break\nsleep 0.25\ndone");
    assert(nl =~= seq!['\n']);
    assert(phantun::kill_script() =~= text::join(all, nl));
    assert forall|i: int| 0 <= i < all.len() implies !(#[trigger] all[i]).contains('\n') by {}
    text::lemma_split_joined(all, '\n', nl);
}

/// Taking the disguise layer down ends both of its programs, and no other.
pub proof fn lemma_both_programs_are_ended(running: Set<Seq<char>>)
    ensures
        ended_by_all(running, text::split_char(phantun::kill_script(), '\n')) == running.remove(
            "phantun-server"@,
        ).remove("phantun-client"@),
{
    lemma_kill_text();
    let lines = text::split_char(phantun::kill_script(), '\n');
    let l0 = Seq::<Seq<char>>::empty();
    let l1 = l0.push(lines[0]);
    let l2 = l1.push(lines[1]);
    let l3 = l2.push(lines[2]);
    let l4 = l3.push(lines[3]);
    let l5 = l4.push(lines[4]);
    let l6 = l5.push(lines[5]);
    lemma_ended_more(running, l0, lines[0]);
    lemma_ended_more(running, l1, lines[1]);
    lemma_ended_more(running, l2, lines[2]);
    lemma_ended_more(running, l3, lines[3]);
    lemma_ended_more(running, l4, lines[4]);
    lemma_ended_more(running, l5, lines[5]);
    assert(l6 =~= lines);
    assert(ended_by_all(running, l0) == running);
    reveal_strlit("pkill -x ");
    reveal_strlit(" 2>/dev/null || true");
    reveal_strlit("phantun-server");
    reveal_strlit("phantun-client");
    reveal_strlit("pkill -x phantun-server 2>/dev/null || true");
    reveal_strlit("pkill -x phantun-client 2>/dev/null || true");
    reveal_strlit("for _ in $(seq 1 20); do");
    reveal_strlit("pgrep -x phantun-server >/dev/null 2>&1 || pgrep -x phantun-client >/dev/null 2>&1 || break");
    reveal_strlit("sleep 0.25");
    reveal_strlit("done");
    assert(lines[0] =~= "pkill -x "@ + "phantun-server"@ + " 2>/dev/null || true"@);
    assert(lines[1] =~= "pkill -x "@ + "phantun-client"@ + " 2>/dev/null || true"@);
    lemma_between("pkill -x "@, "phantun-server"@, " 2>/dev/null || true"@);
    lemma_between("pkill -x "@, "phantun-client"@, " 2>/dev/null || true"@);
    lemma_other_opening(lines[2], "pkill -x "@, 0);
    lemma_other_opening(lines[3], "pkill -x "@, 1);
    lemma_other_opening(lines[4], "pkill -x "@, 0);
    lemma_other_opening(lines[5], "pkill -x "@, 0);
}

/// A process of the disguise layer is started as its own program with its own arguments, each
/// one word, and what it says goes through the agent's sink into its own log.
pub proof fn lemma_process_is_started_with_its_arguments(
    executable: Seq<char>,
    state_dir: Seq<char>,
    instance: phantun::InstanceView,
)
    ensures
        ({
            let script = phantun::spawn_script(executable, state_dir, instance);
            let line = word_between(
                script,
                "set -eu\nnohup sh -c "@,
                " >/dev/null 2>&1 &\nsleep 0.4"@,
            );
            let words = phantun::quoted_words(instance.args());
            &&& line == Some(
                instance.program() + " "@ + text::join(words, " "@) + " 2>&1 | "@ + phantun::sink_of(
                    executable,
                    state_dir,
                    instance,
                ),
            )
            &&& words.len() == instance.args().len()
            &&& forall|i: int|
                0 <= i < words.len() ==> shell::read_word(#[trigger] words[i]) == Some(
                    shell::Reader { inside: false, escaped: false, word: instance.args()[i] },
                )
        }),
{
    lemma_word_between(
        "set -eu\nnohup sh -c "@,
        instance.program() + " "@ + text::join(phantun::quoted_words(instance.args()), " "@)
            + " 2>&1 | "@ + phantun::sink_of(executable, state_dir, instance),
        " >/dev/null 2>&1 &\nsleep 0.4"@,
    );
    let words = phantun::quoted_words(instance.args());
    assert forall|i: int| 0 <= i < words.len() implies shell::read_word(#[trigger] words[i]) == Some(
        shell::Reader { inside: false, escaped: false, word: instance.args()[i] },
    ) by {
        shell::lemma_quoted_value_is_one_word(instance.args()[i]);
    }
}

} // verus!
