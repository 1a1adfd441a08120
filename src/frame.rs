//! The outbound frames: one per output line, and the end-of-command sentinel.
use vstd::prelude::*;

verus! {

/// The child-process stream that a line of output came from.
#[derive(Clone, Copy, Debug, PartialEq, Eq, Structural)]
pub enum Origin {
    Stdout,
    Stderr,
}

/// One complete line of child output, without its line terminator.
#[derive(Debug)]
pub struct OutputLine {
    pub origin: Origin,
    pub text: String,
}

/// The text that marks the end of a command's output.
pub open spec fn sentinel() -> Seq<char> {
    seq!['-', '-', '-', 'E', 'N', 'D', '-', '-', '-']
}

/// The prefix carried by frames of standard-error lines.
pub open spec fn err_prefix() -> Seq<char> {
    seq!['E', 'R', 'R', ':', ' ']
}

/// The frame sent for a line of text from the given stream.
pub open spec fn line_frame(origin: Origin, text: Seq<char>) -> Seq<char> {
    match origin {
        Origin::Stdout => text,
        Origin::Stderr => err_prefix() + text,
    }
}

/// A prefixed frame never reads as the sentinel.
pub proof fn lemma_prefixed_is_not_sentinel(text: Seq<char>)
    ensures
        err_prefix() + text != sentinel(),
{
    assert((err_prefix() + text)[0] == 'E');
    assert(sentinel()[0] == '-');
}

/// The sentinel frame, `---END---`.
pub fn sentinel_frame() -> (r: String)
    ensures
        r@ == sentinel(),
{
    let r = String::from_str("---END---");
    proof {
        reveal_strlit("---END---");
        assert(r@ =~= sentinel());
    }
    r
}

/// `ERR: ` followed by the given text.
pub fn error_frame(text: &str) -> (r: String)
    ensures
        r@ == err_prefix() + text@,
{
    let mut r = String::from_str("ERR: ");
    proof {
        reveal_strlit("ERR: ");
        assert(r@ =~= err_prefix());
    }
    r.append(text);
    r
}

impl OutputLine {
    pub fn new(origin: Origin, text: String) -> (r: OutputLine)
        ensures
            r.origin == origin,
            r.text@ == text@,
    {
        OutputLine { origin, text }
    }

    /// The frame that carries this line: the text itself for standard output,
    /// the text after `ERR: ` for standard error.
    pub fn frame(&self) -> (r: String)
        ensures
            r@ == line_frame(self.origin, self.text@),
            self.origin == Origin::Stdout ==> r@ == self.text@,
            self.origin == Origin::Stderr ==> r@ == err_prefix() + self.text@,
    {
        match self.origin {
            Origin::Stdout => self.text.clone(),
            Origin::Stderr => error_frame(self.text.as_str()),
        }
    }
}

} // verus!
