//! A line of text put together piece by piece.

use vstd::prelude::*;
use vstd::string::*;

use crate::doubles::{amount_text, percent_text, say_amount, say_percent, say_span, span_text};
use crate::ids::{id_text, say_id};
use crate::text::{chars_of, decimal_text, say_number, trim_bounds, trimmed};

verus! {

/// Pieces of text end to end.
pub open spec fn joined(pieces: Seq<Seq<char>>) -> Seq<char>
    decreases pieces.len(),
{
    if pieces.len() == 0 {
        Seq::empty()
    } else {
        joined(pieces.drop_last()) + pieces.last()
    }
}

/// A number in decimal.
pub open spec fn num(n: int) -> Seq<char> {
    decimal_text(n as nat)
}

/// A line so far, and the pieces it is made of.
pub struct Line {
    pub text: String,
    pub pieces: Ghost<Seq<Seq<char>>>,
}

impl Line {
    pub open spec fn wf(&self) -> bool {
        self.text@ == joined(self.pieces@)
    }

    /// Nothing yet.
    pub fn new() -> (line: Line)
        ensures
            line.wf(),
            line.pieces@ == Seq::<Seq<char>>::empty(),
    {
        let line = Line { text: String::new(), pieces: Ghost(Seq::empty()) };
        assert(line.text@ =~= joined(line.pieces@));
        line
    }

    /// One piece of text more.
    pub fn say(&mut self, text: &str)
        requires
            old(self).wf(),
        ensures
            final(self).wf(),
            final(self).pieces@ == old(self).pieces@.push(text@),
    {
        self.text.append(text);
        self.pieces = Ghost(self.pieces@.push(text@));
        assert(self.pieces@.drop_last() =~= old(self).pieces@);
    }

    /// One word more, without the white space around it.
    pub fn word(&mut self, word: &String)
        requires
            old(self).wf(),
        ensures
            final(self).wf(),
            final(self).pieces@ == old(self).pieces@.push(trimmed(word@)),
    {
        let chars: Vec<char> = chars_of(word.as_str());
        let (from, to): (usize, usize) = trim_bounds(&chars);
        self.say(word.as_str().substring_char(from, to));
    }

    /// A number.
    pub fn number(&mut self, n: u64)
        requires
            old(self).wf(),
        ensures
            final(self).wf(),
            final(self).pieces@ == old(self).pieces@.push(num(n as int)),
    {
        say_number(&mut self.text, n);
        self.pieces = Ghost(self.pieces@.push(num(n as int)));
        assert(self.pieces@.drop_last() =~= old(self).pieces@);
    }

    /// A number that may be negative.
    pub fn id(&mut self, id: i32)
        requires
            old(self).wf(),
        ensures
            final(self).wf(),
            final(self).pieces@ == old(self).pieces@.push(id_text(id as int)),
    {
        say_id(&mut self.text, id);
        self.pieces = Ghost(self.pieces@.push(id_text(id as int)));
        assert(self.pieces@.drop_last() =~= old(self).pieces@);
    }

    /// So many bytes, or nanoseconds, in units of `of`, to `d` decimals.
    pub fn amount(&mut self, n: u64, of: u64, d: u32)
        requires
            old(self).wf(),
            of >= 0x1_0000,
            1 <= d <= 3,
        ensures
            final(self).wf(),
            final(self).pieces@ == old(self).pieces@.push(amount_text(n, of, d as nat)),
    {
        say_amount(&mut self.text, n, of, d);
        self.pieces = Ghost(self.pieces@.push(amount_text(n, of, d as nat)));
        assert(self.pieces@.drop_last() =~= old(self).pieces@);
    }

    /// A span of so many nanoseconds, in milliseconds, to `d` decimals.
    pub fn span(&mut self, n: u64, d: u32)
        requires
            old(self).wf(),
            1 <= d <= 3,
        ensures
            final(self).wf(),
            final(self).pieces@ == old(self).pieces@.push(span_text(n, d as nat)),
    {
        say_span(&mut self.text, n, d);
        self.pieces = Ghost(self.pieces@.push(span_text(n, d as nat)));
        assert(self.pieces@.drop_last() =~= old(self).pieces@);
    }

    /// How many in a hundred `part` of `whole` are.
    pub fn percent(&mut self, part: u64, whole: u64)
        requires
            old(self).wf(),
            part <= whole,
        ensures
            final(self).wf(),
            final(self).pieces@ == old(self).pieces@.push(percent_text(part, whole)),
    {
        say_percent(&mut self.text, part, whole);
        self.pieces = Ghost(self.pieces@.push(percent_text(part, whole)));
        assert(self.pieces@.drop_last() =~= old(self).pieces@);
    }
}

/// A line says its pieces one after the other, each as it is.
pub proof fn a_line_says_its_pieces_in_order(before: Seq<Seq<char>>, after: Seq<Seq<char>>, piece: Seq<char>)
    ensures
        joined(Seq::<Seq<char>>::empty()) == Seq::<char>::empty(),
        joined(seq![piece]) == piece,
        joined(before + after) == joined(before) + joined(after),
    decreases after.len(),
{
    assert(seq![piece].drop_last() =~= Seq::<Seq<char>>::empty());
    assert(joined(Seq::<Seq<char>>::empty()) =~= Seq::<char>::empty());
    assert(joined(seq![piece]) =~= piece);
    if after.len() == 0 {
        assert(before + after =~= before);
        assert(joined(before) + joined(after) =~= joined(before));
    } else {
        a_line_says_its_pieces_in_order(before, after.drop_last(), piece);
        assert((before + after).drop_last() =~= before + after.drop_last());
        assert((before + after).last() == after.last());
        assert(joined(before + after) =~= joined(before) + joined(after));
    }
}

} // verus!
