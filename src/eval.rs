use vstd::prelude::*;
use vstd::string::{StrSliceExecFns, StringExecFns};

verus! {

/// Whether to run normally or to generate code coverage
#[derive(PartialEq, Eq, Structural, Clone, Copy, Debug)]
pub enum Mode {
    Run,
    Coverage,
}

impl Mode {
    /// The command line that stands in for the program's name.
    pub open spec fn fragment(self) -> Seq<char> {
        match self {
            Mode::Run => "cargo run -q --"@,
            Mode::Coverage => "cargo llvm-cov run --no-report --"@,
        }
    }

    pub fn command_fragment(self) -> (r: &'static str)
        ensures
            r@ == self.fragment(),
    {
        match self {
            Mode::Run => "cargo run -q --",
            Mode::Coverage => "cargo llvm-cov run --no-report --",
        }
    }
}

/// The words that shell-words reads from `s`, or `None` where it reports a
/// parse error (an unclosed quote, or text that ends with a backslash
/// inside double quotes).
pub uninterp spec fn shell_split(s: Seq<char>) -> Option<Seq<Seq<char>>>;

/// `l` without one trailing carriage return.
pub open spec fn without_cr(l: Seq<char>) -> Seq<char> {
    if l.len() > 0 && l.last() == '\r' {
        l.drop_last()
    } else {
        l
    }
}

/// The lines of `s` from position `i` on, where `cur` holds the part of the
/// current line read so far. A line ends at `\n` or `\r\n`; the last line
/// needs no ending, and an ending at the very end starts no further line.
pub open spec fn lines_from(s: Seq<char>, i: int, cur: Seq<char>) -> Seq<Seq<char>>
    decreases s.len() - i,
{
    if i < 0 || i >= s.len() {
        if cur.len() > 0 {
            seq![cur]
        } else {
            Seq::empty()
        }
    } else if s[i] == '\n' {
        seq![without_cr(cur)] + lines_from(s, i + 1, Seq::empty())
    } else {
        lines_from(s, i + 1, cur.push(s[i]))
    }
}

/// The lines of `s`, without their endings.
pub open spec fn lines_of(s: Seq<char>) -> Seq<Seq<char>> {
    lines_from(s, 0, Seq::empty())
}

pub open spec fn string_views(v: Seq<String>) -> Seq<Seq<char>> {
    v.map_values(|s: String| s@)
}

/// Relies on `shell_words::split`: the words of `s` under shell quoting rules.
#[verifier::external_body]
fn split_words(s: &str) -> (r: Option<Vec<String>>)
    ensures
        r is None <==> shell_split(s@) is None,
        r matches Some(v) ==> shell_split(s@) == Some(string_views(v@)),
{
    shell_words::split(s).ok()
}

/// Relies on `str::lines`: lines end at `\n` or `\r\n`, the endings are
/// dropped, and a final ending starts no empty line.
#[verifier::external_body]
fn text_lines(s: &str) -> (r: Vec<String>)
    ensures
        string_views(r@) == lines_of(s@),
{
    s.lines().map(|l| l.to_string()).collect()
}

/// The rest of `s` where it begins with `prefix`.
fn strip_prefix(s: &str, prefix: &str) -> (r: Option<String>)
    ensures
        r is Some <==> is_prefix(prefix@, s@),
        r matches Some(t) ==> t@ == s@.subrange(prefix@.len() as int, s@.len() as int),
{
    let n = s.unicode_len();
    let m = prefix.unicode_len();
    if m > n {
        return None;
    }
    let mut i: usize = 0;
    while i < m
        invariant
            n == s@.len(),
            m == prefix@.len(),
            m <= n,
            0 <= i <= m,
            forall|k: int| 0 <= k < i ==> s@[k] == prefix@[k],
        decreases m - i,
    {
        if s.get_char(i) != prefix.get_char(i) {
            assert(s@.subrange(0, m as int)[i as int] != prefix@[i as int]);
            return None;
        }
        i = i + 1;
    }
    assert(s@.subrange(0, m as int) =~= prefix@);
    Some(String::from_str(s.substring_char(m, n)))
}

/// Whether `p` begins `s`.
pub open spec fn is_prefix(p: Seq<char>, s: Seq<char>) -> bool {
    p.len() <= s.len() && s.subrange(0, p.len() as int) == p
}

/// How a command line of the documentation begins.
pub open spec fn prompt() -> Seq<char> {
    "$ tbb"@
}

/// The lines among the first `n` that hold a command.
pub open spec fn command_lines_upto(lines: Seq<Seq<char>>, n: int) -> Seq<Seq<char>>
    decreases n,
{
    if n <= 0 || n > lines.len() {
        Seq::empty()
    } else if is_prefix(prompt(), lines[n - 1]) {
        command_lines_upto(lines, n - 1).push(lines[n - 1])
    } else {
        command_lines_upto(lines, n - 1)
    }
}

/// The lines of `code` that hold a command: those that begin with `$ tbb`.
pub fn command_lines(code: &str) -> (r: Vec<String>)
    ensures
        string_views(r@) == command_lines_upto(lines_of(code@), lines_of(code@).len() as int),
{
    let lines = text_lines(code);
    let n = lines.len();
    let mut out: Vec<String> = Vec::new();
    let mut i: usize = 0;
    while i < n
        invariant
            n == lines@.len(),
            string_views(lines@) == lines_of(code@),
            0 <= i <= n,
            string_views(out@) == command_lines_upto(lines_of(code@), i as int),
        decreases n - i,
    {
        proof {
            reveal_strlit("$ tbb");
        }
        assert(lines_of(code@)[i as int] == lines@[i as int]@);
        let ghost before = out@;
        match strip_prefix(lines[i].as_str(), "$ tbb") {
            Some(_) => {
                out.push(lines[i].clone());
                assert(string_views(out@) =~= string_views(before).push(lines@[i as int]@));
            },
            None => {},
        }
        i = i + 1;
    }
    out
}

/// The command line that `line` stands for in `mode`: `$ tbb` replaced by
/// the mode's fragment.
pub open spec fn expanded(line: Seq<char>, mode: Mode) -> Seq<char> {
    mode.fragment() + line.subrange(prompt().len() as int, line.len() as int)
}

/// The program and arguments that a command line of the documentation runs
/// in `mode`. `None` where the line does not begin with `$ tbb`, where its
/// quoting does not parse, or where it holds no word.
pub fn command_args(line: &str, mode: Mode) -> (r: Option<(String, Vec<String>)>)
    ensures
        r is Some <==> {
            &&& is_prefix(prompt(), line@)
            &&& shell_split(expanded(line@, mode)) matches Some(words)
            &&& words.len() > 0
        },
        r matches Some((program, args)) ==> shell_split(expanded(line@, mode)) == Some(
            seq![program@] + string_views(args@),
        ),
{
    proof {
        reveal_strlit("$ tbb");
    }
    let rest = match strip_prefix(line, "$ tbb") {
        None => {
            return None;
        },
        Some(t) => t,
    };
    let mut command = String::from_str(mode.command_fragment());
    command.append(rest.as_str());
    assert(command@ == expanded(line@, mode));
    let mut words = match split_words(command.as_str()) {
        None => {
            return None;
        },
        Some(w) => w,
    };
    if words.len() == 0 {
        return None;
    }
    let ghost all = words@;
    let program = words.remove(0);
    assert(string_views(all) =~= seq![program@] + string_views(words@));
    Some((program, words))
}

/// The output so far, followed by a command line, a newline and what the
/// command wrote to stdout and to stderr.
pub open spec fn extended_output(
    so_far: Seq<char>,
    line: Seq<char>,
    stdout: Seq<char>,
    stderr: Seq<char>,
) -> Seq<char> {
    so_far + line + "\n"@ + stdout + stderr
}

/// Adds one command and what it printed to the output so far. A command
/// may write to stdout or to stderr but not to both, since the two are not
/// interleaved as they arrive: where both hold text, the result is an error
/// message that ends with the output, this command included.
pub fn append_output(so_far: String, line: &str, stdout: &str, stderr: &str) -> (r: Result<
    String,
    String,
>)
    ensures
        stdout@.len() > 0 && stderr@.len() > 0 ==> (r matches Err(msg) && msg@
            == "stdout and stderr both exist\n"@ + extended_output(so_far@, line@, stdout@, stderr@)),
        !(stdout@.len() > 0 && stderr@.len() > 0) ==> (r matches Ok(out) && out@
            == extended_output(so_far@, line@, stdout@, stderr@)),
{
    proof {
        reveal_strlit("\n");
        reveal_strlit("stdout and stderr both exist\n");
    }
    let mut out = so_far;
    out.append(line);
    out.append("\n");
    out.append(stdout);
    out.append(stderr);
    if !stdout.is_empty() && !stderr.is_empty() {
        let mut msg = String::from_str("stdout and stderr both exist\n");
        msg.append(out.as_str());
        return Err(msg);
    }
    Ok(out)
}

} // verus!
