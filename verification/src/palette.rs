//! The palette entity and the decoder and encoder entry points.

use vstd::prelude::*;
use vstd::string::StringExecFns;
use crate::color::create_string_from_colors;
use crate::color::Color;
use crate::grammar::color_of_line;
use crate::grammar::gpl_text;
use crate::grammar::is_skip;
use crate::grammar::parse_from;
use crate::grammar::parse_gpl;
use crate::grammar::ParseOutcome;
use crate::numeral::parse_byte;
use crate::numeral::push_dec;
use crate::text::chars_of;
use crate::text::copy_range;
use crate::text::is_space;
use crate::text::lemma_tokens_all_space;
use crate::text::lemma_tokens_space_prefix;
use crate::text::lemma_tokens_word;
use crate::text::lemma_trim_front_skip;
use crate::text::line_eq_str;
use crate::text::line_starts_with;
use crate::text::scan_while_non_space;
use crate::text::scan_while_space;
use crate::text::split_lines;
use crate::text::split_to_lines;
use crate::text::string_of_chars;
use crate::text::strip_cr;
use crate::text::tokens;
use crate::text::trim;
use crate::text::trim_range;

verus! {

/// A named, ordered list of colors. The order is the display order
/// of the palette and is preserved by both decoding and encoding; a
/// palette read from text may be empty, one built through
/// [`Palette::new`] never is.
#[derive(Debug)]
pub struct Palette {
    name: String,
    colors: Vec<Color>,
}

/// Why building or decoding a palette failed: a validating
/// construction was given no colors, or a line of the text broke the
/// grammar (carrying its 1-based line number and its text).
#[derive(Debug)]
pub enum NewPaletteError {
    NoColors,
    InvalidData { line_num: usize, val: String },
}

impl Palette {
    /// The palette's name, as a sequence of characters.
    pub closed spec fn spec_name(&self) -> Seq<char> {
        self.name@
    }

    /// The palette's colors, in display order.
    pub closed spec fn spec_colors(&self) -> Seq<Color> {
        self.colors@
    }

    /// Builds a named palette from a non-empty list of colors, in the
    /// given order; an empty list is rejected with `NoColors`.
    pub fn new(name: String, colors: Vec<Color>) -> (r: Result<Palette, NewPaletteError>)
        ensures
            colors@.len() == 0 ==> (r matches Err(e) && e is NoColors),
            colors@.len() > 0 ==> (r matches Ok(p) && p.spec_name() == name@ && p.spec_colors()
                == colors@),
    {
        if colors.len() == 0 {
            Err(NewPaletteError::NoColors)
        } else {
            Ok(Palette { name, colors })
        }
    }

    /// The palette's name.
    pub fn get_name(&self) -> (r: &str)
        ensures
            r@ == self.spec_name(),
    {
        self.name.as_str()
    }

    /// The palette's colors, in display order.
    pub fn get_colors(&self) -> (r: &[Color])
        ensures
            r@ == self.spec_colors(),
    {
        self.colors.as_slice()
    }

    /// Decodes `.gpl` text into a palette, exactly as the grammar
    /// reads it: the outcome mirrors [`parse_gpl`] on the text, with
    /// a grammar violation reported as `InvalidData` carrying the
    /// line number and text of the first bad line.
    pub fn from_gpl_string(text: &str) -> (r: Result<Palette, NewPaletteError>)
        ensures
            parse_gpl(text@) matches Ok((n, cs)) ==> (r matches Ok(p) && p.spec_name() == n
                && p.spec_colors() == cs),
            parse_gpl(text@) matches Err((ln, raw)) ==> (r matches Err(e) && e matches
                NewPaletteError::InvalidData { line_num, val } && line_num == ln && val@ == raw),
    {
        let chars = chars_of(text);
        let lines = split_to_lines(&chars);
        let ghost sl = split_lines(text@);
        let mut name_v: Vec<char> = Vec::new();
        let mut colors: Vec<Color> = Vec::new();
        let mut seen: u8 = 0;
        let mut i: usize = 0;
        while i < lines.len()
            invariant
                i <= lines@.len(),
                lines@.len() == sl.len(),
                forall|k: int| 0 <= k < sl.len() ==> lines@[k]@ == strip_cr(sl[k]),
                sl == split_lines(text@),
                seen <= 3,
                parse_gpl(text@) == parse_from(sl, i as int, seen as int, name_v@, colors@),
            decreases lines@.len() - i,
        {
            let line = &lines[i];
            let ghost l = lines@[i as int]@;
            let ghost state = parse_from(sl, i as int, seen as int, name_v@, colors@);
            assert(l == strip_cr(sl[i as int]));
            let k = scan_while_space(line, 0, line.len());
            proof {
                lemma_trim_front_skip(l, k as int);
            }
            if k == line.len() || line[k] == '#' {
                proof {
                    if k < line@.len() {
                        assert(crate::text::trim_front(l)[0] == l[k as int]);
                    }
                    assert(is_skip(l));
                    assert(state == parse_from(sl, i as int + 1, seen as int, name_v@, colors@));
                }
            } else {
                proof {
                    assert(crate::text::trim_front(l)[0] == l[k as int]);
                    assert(!is_skip(l));
                }
                if seen == 0 {
                    if line_eq_str(line, "GIMP Palette") {
                        proof {
                            assert(state == parse_from(sl, i as int + 1, 1, name_v@, colors@));
                        }
                        seen = 1;
                    } else {
                        proof {
                            assert(state == ParseOutcome::Err((i as int + 1, l)));
                        }
                        return Err(
                            NewPaletteError::InvalidData {
                                line_num: i + 1,
                                val: string_of_chars(line),
                            },
                        );
                    }
                } else if seen == 1 {
                    proof {
                        reveal_strlit("Name:");
                    }
                    if line_starts_with(line, "Name:") {
                        name_v = trim_range(line, 5, line.len());
                        proof {
                            assert(l.skip(5) =~= l.subrange(5, l.len() as int));
                            assert(name_v@ == trim(l.skip(5)));
                            assert(state == parse_from(sl, i as int + 1, 2, name_v@, colors@));
                        }
                        seen = 2;
                    } else {
                        proof {
                            assert(state == ParseOutcome::Err((i as int + 1, l)));
                        }
                        return Err(
                            NewPaletteError::InvalidData {
                                line_num: i + 1,
                                val: string_of_chars(line),
                            },
                        );
                    }
                } else if seen == 2 {
                    proof {
                        reveal_strlit("Columns:");
                    }
                    if line_starts_with(line, "Columns:") {
                        proof {
                            assert(state == parse_from(sl, i as int + 1, 3, name_v@, colors@));
                        }
                        seen = 3;
                    } else {
                        proof {
                            assert(state == ParseOutcome::Err((i as int + 1, l)));
                        }
                        return Err(
                            NewPaletteError::InvalidData {
                                line_num: i + 1,
                                val: string_of_chars(line),
                            },
                        );
                    }
                } else {
                    match parse_color_line(line) {
                        Option::Some(c) => {
                            proof {
                                assert(state == parse_from(
                                    sl,
                                    i as int + 1,
                                    seen as int,
                                    name_v@,
                                    colors@.push(c),
                                ));
                            }
                            colors.push(c);
                        },
                        Option::None => {
                            proof {
                                assert(state == ParseOutcome::Err((i as int + 1, l)));
                            }
                            return Err(
                                NewPaletteError::InvalidData {
                                    line_num: i + 1,
                                    val: string_of_chars(line),
                                },
                            );
                        },
                    }
                }
            }
            i = i + 1;
        }
        proof {
            assert(parse_gpl(text@) == ParseOutcome::Ok((name_v@, colors@)));
        }
        let name = string_of_chars(&name_v);
        Ok(Palette { name, colors })
    }

    /// Encodes the palette as `.gpl` text, exactly the sequence
    /// [`gpl_text`] describes: signature, name and column count
    /// lines, then one record line per color in display order.
    pub fn to_gpl_string(&self) -> (s: String)
        ensures
            s@ == gpl_text(self.spec_name(), self.spec_colors()),
    {
        let mut s = String::new();
        s.append("GIMP Palette\n");
        s.append("Name: ");
        s.append(self.name.as_str());
        s.append("\n");
        s.append("Columns: ");
        let mut d: Vec<char> = Vec::new();
        push_dec(&mut d, self.colors.len());
        let ds = string_of_chars(&d);
        s.append(ds.as_str());
        s.append("\n");
        let body = create_string_from_colors(self.colors.as_slice());
        s.append(body.as_str());
        proof {
            assert(s@ =~= gpl_text(self.spec_name(), self.spec_colors()));
        }
        s
    }
}

/// Reads a color record line, exactly as [`color_of_line`] does.
fn parse_color_line(line: &Vec<char>) -> (r: Option<Color>)
    ensures
        r == color_of_line(line@),
{
    let ghost l = line@;
    let len = line.len();
    let a1 = scan_while_space(line, 0, len);
    if a1 == len {
        proof {
            lemma_tokens_all_space(l);
        }
        return None;
    }
    let b1 = scan_while_non_space(line, a1, len);
    assert(b1 > a1);
    proof {
        token_split(l, 0, a1 as int, b1 as int);
        assert(l.skip(0) =~= l);
    }
    let ghost w1 = l.subrange(a1 as int, b1 as int);
    assert(tokens(l) == seq![w1] + tokens(l.skip(b1 as int)));
    let a2 = scan_while_space(line, b1, len);
    if a2 == len {
        proof {
            lemma_tokens_all_space_suffix(l, b1 as int);
            assert(tokens(l).len() == 1);
        }
        return None;
    }
    let b2 = scan_while_non_space(line, a2, len);
    assert(b2 > a2);
    proof {
        token_split(l, b1 as int, a2 as int, b2 as int);
    }
    let ghost w2 = l.subrange(a2 as int, b2 as int);
    assert(tokens(l.skip(b1 as int)) == seq![w2] + tokens(l.skip(b2 as int)));
    let a3 = scan_while_space(line, b2, len);
    if a3 == len {
        proof {
            lemma_tokens_all_space_suffix(l, b2 as int);
            assert(tokens(l).len() == 2);
        }
        return None;
    }
    let b3 = scan_while_non_space(line, a3, len);
    assert(b3 > a3);
    proof {
        token_split(l, b2 as int, a3 as int, b3 as int);
    }
    let ghost w3 = l.subrange(a3 as int, b3 as int);
    assert(tokens(l.skip(b2 as int)) == seq![w3] + tokens(l.skip(b3 as int)));
    let ghost ts = tokens(l);
    proof {
        assert(ts.len() >= 3);
        assert(ts[0] == w1);
        assert(ts[1] == w2);
        assert(ts[2] == w3);
    }
    let t1 = copy_range(line, a1, b1);
    let t2 = copy_range(line, a2, b2);
    let t3 = copy_range(line, a3, b3);
    let r = parse_byte(&t1);
    let g = parse_byte(&t2);
    let b = parse_byte(&t3);
    match r {
        Option::Some(rv) => match g {
            Option::Some(gv) => match b {
                Option::Some(bv) => Some(Color { r: rv, g: gv, b: bv }),
                Option::None => None,
            },
            Option::None => None,
        },
        Option::None => None,
    }
}

/// The tokens of the tail of a line from a word boundary on: all
/// whitespace from `from` to the end means no tokens are left there.
proof fn lemma_tokens_all_space_suffix(l: Seq<char>, from: int)
    requires
        0 <= from <= l.len(),
        forall|j: int| from <= j < l.len() ==> is_space(l[j]),
    ensures
        tokens(l.skip(from)) == Seq::<Seq<char>>::empty(),
{
    let rest = l.skip(from);
    assert(forall|j: int| 0 <= j < rest.len() ==> is_space(rest[j]));
    lemma_tokens_all_space(rest);
}

/// Splitting one token off the tail of a line: the tail from `p` on
/// begins with whitespace up to `a`, then a word up to `b`, so its
/// tokens are that word followed by the tokens of the tail from `b`.
proof fn token_split(l: Seq<char>, p: int, a: int, b: int)
    requires
        0 <= p <= a < b <= l.len(),
        forall|j: int| p <= j < a ==> is_space(l[j]),
        forall|j: int| a <= j < b ==> !is_space(l[j]),
        b < l.len() ==> is_space(l[b]),
    ensures
        tokens(l.skip(p)) == seq![l.subrange(a, b)] + tokens(l.skip(b)),
{
    let sp = l.subrange(p, a);
    let w = l.subrange(a, b);
    let rest = l.skip(b);
    assert(l.skip(p) =~= sp + (w + rest));
    assert(forall|j: int| 0 <= j < sp.len() ==> is_space(sp[j]));
    assert(forall|j: int| 0 <= j < w.len() ==> !is_space(w[j]));
    lemma_tokens_space_prefix(sp, w + rest);
    assert(rest.len() == 0 || is_space(rest[0]));
    lemma_tokens_word(w, rest);
    assert(tokens(l.skip(p)) == tokens(w + rest));
}

} // verus!

