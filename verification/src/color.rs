//! The RGB color model and its textual record rendering.

use vstd::prelude::*;
use crate::numeral::pad3;
use crate::numeral::push_pad3;
use crate::text::string_of_chars;

verus! {

/// One palette entry: red, green and blue channels, each a byte.
/// A color has no identity beyond the value of its channels.
#[derive(Clone, Copy, PartialEq, Eq, Structural, Debug)]
pub struct Color {
    pub r: u8,
    pub g: u8,
    pub b: u8,
}

/// The record line for one color: three width-three right-aligned
/// decimal fields separated by single spaces, eleven characters in
/// all and never a newline among them.
pub open spec fn color_record(c: Color) -> Seq<char> {
    pad3(c.r) + seq![' '] + pad3(c.g) + seq![' '] + pad3(c.b)
}

impl Color {
    /// Renders the color as its record line, without the trailing
    /// newline: the exact wire shape of one palette entry.
    pub fn to_string(&self) -> (s: String)
        ensures
            s@ == color_record(*self),
    {
        let mut v: Vec<char> = Vec::new();
        push_pad3(&mut v, self.r);
        v.push(' ');
        push_pad3(&mut v, self.g);
        v.push(' ');
        push_pad3(&mut v, self.b);
        proof {
            assert(v@ =~= color_record(*self));
        }
        string_of_chars(&v)
    }
}

/// The record lines of a color list, in order, each terminated by a
/// single newline.
pub open spec fn records_text(cs: Seq<Color>) -> Seq<char>
    decreases cs.len(),
{
    if cs.len() == 0 {
        Seq::<char>::empty()
    } else {
        records_text(cs.drop_last()) + color_record(cs.last()) + seq!['\n']
    }
}

/// The record text of a non-empty list starts with the first color's
/// record line.
pub proof fn lemma_records_front(cs: Seq<Color>)
    requires
        cs.len() > 0,
    ensures
        records_text(cs) == color_record(cs[0]) + seq!['\n'] + records_text(cs.skip(1)),
    decreases cs.len(),
{
    if cs.len() == 1 {
        assert(cs.drop_last() =~= Seq::<Color>::empty());
        assert(cs.skip(1) =~= Seq::<Color>::empty());
        assert(cs.last() == cs[0]);
        assert(records_text(cs) =~= color_record(cs[0]) + seq!['\n'] + records_text(cs.skip(1)));
    } else {
        lemma_records_front(cs.drop_last());
        assert(cs.drop_last()[0] == cs[0]);
        assert(cs.drop_last().skip(1) =~= cs.skip(1).drop_last());
        assert(cs.skip(1).last() == cs.last());
        assert(cs.skip(1).len() > 0);
        assert(records_text(cs.skip(1)) == records_text(cs.skip(1).drop_last()) + color_record(
            cs.last(),
        ) + seq!['\n']);
        assert(records_text(cs) =~= color_record(cs[0]) + seq!['\n'] + records_text(cs.skip(1)));
    }
}

/// Appends the record lines of a color list to a character vector.
pub fn push_records(v: &mut Vec<char>, colors: &[Color])
    ensures
        final(v)@ == old(v)@ + records_text(colors@),
{
    let n = colors.len();
    let mut i: usize = 0;
    while i < n
        invariant
            i <= n,
            n == colors@.len(),
            v@ == old(v)@ + records_text(colors@.take(i as int)),
        decreases n - i,
    {
        let c = colors[i];
        push_pad3(v, c.r);
        v.push(' ');
        push_pad3(v, c.g);
        v.push(' ');
        push_pad3(v, c.b);
        v.push('\n');
        i = i + 1;
        proof {
            assert(colors@.take(i as int).drop_last() =~= colors@.take(i as int - 1));
            assert(colors@.take(i as int).last() == c);
            assert(v@ =~= old(v)@ + records_text(colors@.take(i as int)));
        }
    }
    proof {
        assert(colors@.take(n as int) =~= colors@);
    }
}

/// Renders a color list as the body of a palette file: one record
/// line per color, in the given order.
pub fn create_string_from_colors(colors: &[Color]) -> (s: String)
    ensures
        s@ == records_text(colors@),
{
    let mut v: Vec<char> = Vec::new();
    push_records(&mut v, colors);
    string_of_chars(&v)
}

} // verus!
