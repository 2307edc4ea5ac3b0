use vstd::prelude::*;

verus! {

/// How loudly a line of compiler output is reported.
#[derive(Clone, Copy, Debug, PartialEq, Eq, Structural)]
pub enum Level {
    Info,
    Warn,
    Error,
}

/// Whether the line starts with the given characters.
pub open spec fn starts_with(line: Seq<char>, prefix: Seq<char>) -> bool {
    prefix.len() <= line.len() && line.subrange(0, prefix.len() as int) == prefix
}

/// The level of a line and the level carried to the next one: a line that
/// starts with `error` or `warning` opens a message of that level, any other
/// line continues the current message, and an empty line ends it.
pub open spec fn classify_spec(level: Level, line: Seq<char>) -> (Level, Level) {
    let current = if starts_with(line, "error"@) {
        Level::Error
    } else if starts_with(line, "warning"@) {
        Level::Warn
    } else {
        level
    };
    (current, if line.len() == 0 { Level::Info } else { current })
}

fn has_prefix(line: &str, prefix: &str) -> (r: bool)
    ensures
        r == starts_with(line@, prefix@),
{
    let n = line.unicode_len();
    let m = prefix.unicode_len();
    if m > n {
        return false;
    }
    let mut i: usize = 0;
    while i < m
        invariant
            0 <= i <= m,
            m <= n,
            n == line@.len(),
            m == prefix@.len(),
            forall|j: int| 0 <= j < i ==> line@[j] == prefix@[j],
        decreases m - i,
    {
        if line.get_char(i) != prefix.get_char(i) {
            assert(line@.subrange(0, m as int)[i as int] != prefix@[i as int]);
            return false;
        }
        i += 1;
    }
    assert(line@.subrange(0, m as int) =~= prefix@);
    true
}

/// Classifies one line of compiler output, given the level of the message
/// it may continue; returns the line's level and the level for the next line.
pub fn classify_line(level: Level, line: &str) -> (r: (Level, Level))
    ensures
        r == classify_spec(level, line@),
{
    let current = if has_prefix(line, "error") {
        Level::Error
    } else if has_prefix(line, "warning") {
        Level::Warn
    } else {
        level
    };
    let next = if line.unicode_len() == 0 {
        Level::Info
    } else {
        current
    };
    (current, next)
}

} // verus!
