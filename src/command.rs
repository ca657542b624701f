use vstd::prelude::*;
use vstd::string::StrSliceExecFns;

verus! {

/// A request of the line protocol.
#[derive(Debug)]
pub enum Command {
    Get(String),
    Put(String, String),
    Delete(String),
    Unknown,
}

/// What `str::trim` returns: the characters with leading and trailing
/// whitespace removed.
pub uninterp spec fn trimmed(s: Seq<char>) -> Seq<char>;

/// Relies on `str::trim`: the result depends on the characters alone, and
/// an empty string stays empty.
#[verifier::external_body]
fn trim_whitespace(s: &str) -> (r: String)
    ensures
        r@ == trimmed(s@),
        s@.len() == 0 ==> r@.len() == 0,
{
    s.trim().to_owned()
}

/// The index of the first space at or after `from`, or the length of `t`.
pub open spec fn first_space(t: Seq<char>, from: int) -> int
    decreases t.len() - from,
{
    if from < 0 || from >= t.len() {
        t.len() as int
    } else if t[from] == ' ' {
        from
    } else {
        first_space(t, from + 1)
    }
}

/// `t` cut at its first two spaces into at most three words; the last word
/// keeps any further spaces.
pub open spec fn words(t: Seq<char>) -> Seq<Seq<char>> {
    let i = first_space(t, 0);
    if i == t.len() {
        seq![t]
    } else {
        let j = first_space(t, i + 1);
        if j == t.len() {
            seq![t.subrange(0, i), t.subrange(i + 1, t.len() as int)]
        } else {
            seq![t.subrange(0, i), t.subrange(i + 1, j), t.subrange(j + 1, t.len() as int)]
        }
    }
}

/// Whether `c` is the command that the trimmed line `t` asks for.
pub open spec fn command_of(c: Command, t: Seq<char>) -> bool {
    let w = words(t);
    if w.len() == 2 && w[0] == "GET"@ {
        c is Get && c->Get_0@ == w[1]
    } else if w.len() == 3 && w[0] == "SET"@ {
        c is Put && c->Put_0@ == w[1] && c->Put_1@ == w[2]
    } else if w.len() == 2 && w[0] == "DELETE"@ {
        c is Delete && c->Delete_0@ == w[1]
    } else {
        c is Unknown
    }
}

/// The index of the first space of `s` at or after `from`, or its length.
fn find_space(s: &str, from: usize) -> (r: usize)
    requires
        from <= s@.len(),
    ensures
        r == first_space(s@, from as int),
        from <= r <= s@.len(),
{
    let n = s.unicode_len();
    let mut i = from;
    while i < n
        invariant
            n == s@.len(),
            from <= i <= n,
            first_space(s@, from as int) == first_space(s@, i as int),
        decreases n - i,
    {
        if s.get_char(i) == ' ' {
            return i;
        }
        i = i + 1;
    }
    i
}

/// Whether the characters of `s` are those of `w`.
fn same_chars(s: &str, w: &str) -> (r: bool)
    ensures
        r == (s@ == w@),
{
    let n = s.unicode_len();
    if n != w.unicode_len() {
        return false;
    }
    let mut i: usize = 0;
    while i < n
        invariant
            n == s@.len(),
            n == w@.len(),
            i <= n,
            s@.subrange(0, i as int) == w@.subrange(0, i as int),
        decreases n - i,
    {
        if s.get_char(i) != w.get_char(i) {
            assert(s@[i as int] != w@[i as int]);
            return false;
        }
        i = i + 1;
        assert(s@.subrange(0, i as int) =~= s@.subrange(0, i - 1).push(s@[i - 1]));
        assert(w@.subrange(0, i as int) =~= w@.subrange(0, i - 1).push(w@[i - 1]));
    }
    assert(s@ =~= s@.subrange(0, n as int));
    assert(w@ =~= w@.subrange(0, n as int));
    true
}

impl Command {
    /// Reads a request line that has already been trimmed: the words `GET k`,
    /// `SET k v` (the value keeps any further spaces) and `DELETE k`; any
    /// other line is `Unknown`.
    pub fn parse_trimmed(t: &str) -> (r: Command)
        ensures
            command_of(r, t@),
    {
        let n = t.unicode_len();
        let i = find_space(t, 0);
        if i == n {
            return Command::Unknown;
        }
        let verb = t.substring_char(0, i);
        let j = find_space(t, i + 1);
        if j == n {
            let key = t.substring_char(i + 1, n).to_owned();
            if same_chars(verb, "GET") {
                return Command::Get(key);
            } else if same_chars(verb, "DELETE") {
                return Command::Delete(key);
            }
            proof {
                assert(words(t@)[0] == verb@);
            }
            return Command::Unknown;
        }
        let key = t.substring_char(i + 1, j).to_owned();
        let value = t.substring_char(j + 1, n).to_owned();
        if same_chars(verb, "SET") {
            return Command::Put(key, value);
        }
        Command::Unknown
    }

    /// Reads a request line: surrounding whitespace is dropped, then the
    /// line is read as by `parse_trimmed`.
    pub fn parse(input: &str) -> (r: Command)
        ensures
            command_of(r, trimmed(input@)),
    {
        let t = trim_whitespace(input);
        Self::parse_trimmed(t.as_str())
    }
}

} // verus!
