//! The `.gpl` line grammar: which lines are skipped, how the three
//! header lines are recognised, what a color record line yields, and
//! what a whole text decodes or encodes to.

use vstd::prelude::*;
use crate::color::color_record;
use crate::color::lemma_records_front;
use crate::color::records_text;
use crate::color::Color;
use crate::numeral::dec_of;
use crate::numeral::lemma_dec_of_digits;
use crate::numeral::lemma_digit_not_special;
use crate::numeral::lemma_pad3_parts;
use crate::numeral::lemma_parse_dec_of;
use crate::numeral::parse_u8;
use crate::text::is_space;
use crate::text::lemma_split_lines_line;
use crate::text::lemma_tokens_space_prefix;
use crate::text::lemma_tokens_word;
use crate::text::lemma_trim_front_skip;
use crate::text::lemma_trim_space_prefix;
use crate::text::lemma_trim_strip_cr;
use crate::text::split_lines;
use crate::text::strip_cr;
use crate::text::tokens;
use crate::text::trim;
use crate::text::trim_front;

verus! {

/// A line the decoder skips entirely: blank (all whitespace) or a
/// comment (its first non-space character is `#`).
pub open spec fn is_skip(l: Seq<char>) -> bool {
    trim_front(l).len() == 0 || trim_front(l)[0] == '#'
}

/// What a color record line yields: its first three whitespace
/// tokens, each read as a byte channel value. `None` when the line
/// has fewer than three tokens or any of the three fails to parse.
pub open spec fn color_of_line(l: Seq<char>) -> Option<Color> {
    let ts = tokens(l);
    if ts.len() >= 3 {
        match parse_u8(ts[0]) {
            Option::Some(r) => match parse_u8(ts[1]) {
                Option::Some(g) => match parse_u8(ts[2]) {
                    Option::Some(b) => Option::Some(Color { r, g, b }),
                    Option::None => Option::None,
                },
                Option::None => Option::None,
            },
            Option::None => Option::None,
        }
    } else {
        Option::None
    }
}

/// What decoding yields: the palette's name and colors, or the
/// 1-based absolute line number and text of the first bad line.
pub type ParseOutcome = Result<(Seq<char>, Seq<Color>), (int, Seq<char>)>;

/// One pass over the lines from position `i` on, having already
/// recognised `seen` header lines and gathered a name and colors:
/// skipped lines are stepped over; the first three non-skipped lines
/// must be the `GIMP Palette` signature, a `Name:` line (whose
/// remainder, trimmed, becomes the name) and a `Columns:` line (whose
/// value is a display hint and is not enforced); every later
/// non-skipped line must be a color record. The first offending line
/// stops the pass.
pub open spec fn parse_from(
    ls: Seq<Seq<char>>,
    i: int,
    seen: int,
    name: Seq<char>,
    colors: Seq<Color>,
) -> ParseOutcome
    decreases ls.len() - i,
{
    if i < 0 || i >= ls.len() {
        Ok((name, colors))
    } else {
        let l = strip_cr(ls[i]);
        if is_skip(l) {
            parse_from(ls, i + 1, seen, name, colors)
        } else if seen == 0 {
            if l == "GIMP Palette"@ {
                parse_from(ls, i + 1, 1, name, colors)
            } else {
                Err((i + 1, l))
            }
        } else if seen == 1 {
            if l.len() >= 5 && l.take(5) == "Name:"@ {
                parse_from(ls, i + 1, 2, trim(l.skip(5)), colors)
            } else {
                Err((i + 1, l))
            }
        } else if seen == 2 {
            if l.len() >= 8 && l.take(8) == "Columns:"@ {
                parse_from(ls, i + 1, 3, name, colors)
            } else {
                Err((i + 1, l))
            }
        } else {
            match color_of_line(l) {
                Option::Some(c) => parse_from(ls, i + 1, seen, name, colors.push(c)),
                Option::None => Err((i + 1, l)),
            }
        }
    }
}

/// What a whole text decodes to under the palette grammar. A text
/// with fewer than three non-skipped lines decodes to a palette whose
/// missing parts are empty; in particular an empty text, or one made
/// only of comments and blank lines, decodes to an empty palette.
pub open spec fn parse_gpl(s: Seq<char>) -> ParseOutcome {
    parse_from(split_lines(s), 0, 0, Seq::<char>::empty(), Seq::<Color>::empty())
}

/// The full encoding of a palette: the signature line, the name line,
/// a column count line holding the number of colors, then one record
/// line per color, each line ending in a newline.
pub open spec fn gpl_text(name: Seq<char>, colors: Seq<Color>) -> Seq<char> {
    "GIMP Palette\n"@ + "Name: "@ + name + "\n"@ + "Columns: "@ + dec_of(colors.len()) + "\n"@
        + records_text(colors)
}

/// A decimal rendering holds no whitespace and none of the characters
/// the grammar treats specially.
proof fn lemma_dec_plain(n: nat)
    ensures
        dec_of(n).len() >= 1,
        forall|j: int|
            0 <= j < dec_of(n).len() ==> !is_space(#[trigger] dec_of(n)[j]) && dec_of(n)[j] != '\n'
                && dec_of(n)[j] != '\r' && dec_of(n)[j] != '#',
{
    lemma_dec_of_digits(n);
    assert forall|j: int|
        0 <= j < dec_of(n).len() implies !is_space(#[trigger] dec_of(n)[j]) && dec_of(n)[j] != '\n'
        && dec_of(n)[j] != '\r' && dec_of(n)[j] != '#' by {
        lemma_digit_not_special(dec_of(n)[j]);
    }
}

/// How a record line reads back: it is its own stripped form, it is
/// not skipped, it holds no newline, and it parses to the very color
/// it renders.
proof fn lemma_record_line(c: Color)
    ensures
        strip_cr(color_record(c)) == color_record(c),
        !is_skip(color_record(c)),
        forall|j: int| 0 <= j < color_record(c).len() ==> #[trigger] color_record(c)[j] != '\n',
        color_of_line(color_record(c)) == Some(c),
{
    let rec = color_record(c);
    let pr = crate::numeral::pad3(c.r);
    let pg = crate::numeral::pad3(c.g);
    let pb = crate::numeral::pad3(c.b);
    let dr = dec_of(c.r as nat);
    let dg = dec_of(c.g as nat);
    let db = dec_of(c.b as nat);
    let kr = lemma_pad3_parts(c.r);
    let kg = lemma_pad3_parts(c.g);
    let kb = lemma_pad3_parts(c.b);
    lemma_dec_plain(c.r as nat);
    lemma_dec_plain(c.g as nat);
    lemma_dec_plain(c.b as nat);
    assert(dr.len() == 3 - kr);
    assert(dg.len() == 3 - kg);
    assert(db.len() == 3 - kb);
    assert(rec.len() == 11);
    // where each character of the record comes from
    assert forall|j: int| 0 <= j < 3 implies rec[j] == pr[j] by {}
    assert(rec[3] == ' ');
    assert forall|j: int| 4 <= j < 7 implies rec[j] == pg[j - 4] by {}
    assert(rec[7] == ' ');
    assert forall|j: int| 8 <= j < 11 implies rec[j] == pb[j - 8] by {}
    assert forall|j: int| kr <= j < 3 implies rec[j] == dr[j - kr] by {
        assert(pr.skip(kr)[j - kr] == pr[j]);
    }
    assert forall|j: int| 4 + kg <= j < 7 implies rec[j] == dg[j - 4 - kg] by {
        assert(pg.skip(kg)[j - 4 - kg] == pg[j - 4]);
    }
    assert forall|j: int| 8 + kb <= j < 11 implies rec[j] == db[j - 8 - kb] by {
        assert(pb.skip(kb)[j - 8 - kb] == pb[j - 8]);
    }
    // no newline, and the last character is a digit
    assert forall|j: int| 0 <= j < rec.len() implies #[trigger] rec[j] != '\n' by {
        if j < kr || j == 3 || (4 <= j && j < 4 + kg) || j == 7 || (8 <= j && j < 8 + kb) {
            assert(rec[j] == ' ');
        }
    }
    assert(rec[10] == db[2 - kb]);
    assert(rec.last() != '\r');
    // not skipped: its first non-space character is a digit
    assert forall|j: int| 0 <= j < kr implies is_space(rec[j]) by {
        assert(rec[j] == ' ');
    }
    assert(!is_space(rec[kr]));
    lemma_trim_front_skip(rec, kr);
    assert(trim_front(rec)[0] == rec[kr]);
    assert(!is_skip(rec));
    // the tokens of the record are exactly the three digit fields
    let resta = seq![' '] + (pg + (seq![' '] + pb));
    let restb = seq![' '] + pb;
    assert(rec =~= rec.take(kr) + (dr + resta));
    assert forall|j: int| 0 <= j < rec.take(kr).len() implies is_space(rec.take(kr)[j]) by {
        assert(rec.take(kr)[j] == rec[j]);
    }
    lemma_tokens_space_prefix(rec.take(kr), dr + resta);
    assert(resta[0] == ' ');
    lemma_tokens_word(dr, resta);
    assert(tokens(rec) == seq![dr] + tokens(resta));
    let spg = seq![' '] + pg.take(kg);
    assert(resta =~= spg + (dg + restb));
    assert forall|j: int| 0 <= j < spg.len() implies is_space(spg[j]) by {
        if j > 0 {
            assert(spg[j] == pg[j - 1]);
        }
    }
    lemma_tokens_space_prefix(spg, dg + restb);
    assert(restb[0] == ' ');
    lemma_tokens_word(dg, restb);
    assert(tokens(resta) == seq![dg] + tokens(restb));
    let spb = seq![' '] + pb.take(kb);
    assert(restb =~= spb + (db + Seq::<char>::empty()));
    assert forall|j: int| 0 <= j < spb.len() implies is_space(spb[j]) by {
        if j > 0 {
            assert(spb[j] == pb[j - 1]);
        }
    }
    lemma_tokens_space_prefix(spb, db + Seq::<char>::empty());
    lemma_tokens_word(db, Seq::<char>::empty());
    assert(tokens(Seq::<char>::empty()) == Seq::<Seq<char>>::empty());
    assert(tokens(restb) == seq![db]);
    assert(tokens(rec) =~= seq![dr, dg, db]);
    // each field parses back to its channel value
    lemma_parse_dec_of(c.r as nat);
    lemma_parse_dec_of(c.g as nat);
    lemma_parse_dec_of(c.b as nat);
    assert(tokens(rec)[0] == dr);
    assert(tokens(rec)[1] == dg);
    assert(tokens(rec)[2] == db);
    assert(color_of_line(rec) == Some(Color { r: c.r, g: c.g, b: c.b }));
}

/// The record lines of a color list, one line per color.
pub open spec fn record_lines(cs: Seq<Color>) -> Seq<Seq<char>> {
    Seq::new(cs.len(), |i: int| color_record(cs[i]))
}

/// Splitting the record text of a color list gives one line per
/// color and a final empty line.
proof fn lemma_split_records(cs: Seq<Color>)
    ensures
        split_lines(records_text(cs)) == record_lines(cs).push(Seq::<char>::empty()),
    decreases cs.len(),
{
    if cs.len() == 0 {
        assert(records_text(cs) == Seq::<char>::empty());
        assert(split_lines(Seq::<char>::empty()) == seq![Seq::<char>::empty()]);
        assert(record_lines(cs).push(Seq::<char>::empty()) =~= seq![Seq::<char>::empty()]);
    } else {
        lemma_records_front(cs);
        lemma_record_line(cs[0]);
        lemma_split_lines_line(color_record(cs[0]), records_text(cs.skip(1)));
        lemma_split_records(cs.skip(1));
        assert(split_lines(records_text(cs)) == seq![color_record(cs[0])] + (record_lines(
            cs.skip(1),
        ).push(Seq::<char>::empty())));
        assert forall|j: int| 0 <= j < cs.skip(1).len() implies record_lines(cs.skip(1))[j]
            == color_record(cs[j + 1]) by {
            assert(cs.skip(1)[j] == cs[j + 1]);
        }
        assert(split_lines(records_text(cs)) =~= record_lines(cs).push(Seq::<char>::empty()));
    }
}

/// Reading record lines one after another appends their colors, in
/// order, and the final empty line is skipped.
proof fn lemma_parse_color_lines(
    ls: Seq<Seq<char>>,
    i: int,
    name: Seq<char>,
    acc: Seq<Color>,
    cs: Seq<Color>,
)
    requires
        0 <= i,
        i + cs.len() + 1 == ls.len(),
        forall|j: int| 0 <= j < cs.len() ==> ls[i + j] == color_record(cs[j]),
        ls[ls.len() - 1] == Seq::<char>::empty(),
    ensures
        parse_from(ls, i, 3, name, acc) == ParseOutcome::Ok((name, acc + cs)),
    decreases cs.len(),
{
    if cs.len() == 0 {
        assert(ls[i] == Seq::<char>::empty());
        assert(strip_cr(ls[i]) == ls[i]);
        assert(is_skip(ls[i]));
        assert(parse_from(ls, i, 3, name, acc) == parse_from(ls, i + 1, 3, name, acc));
        assert(parse_from(ls, i + 1, 3, name, acc) == ParseOutcome::Ok((name, acc)));
        assert(acc + cs =~= acc);
    } else {
        let c = cs[0];
        assert(ls[i] == color_record(c));
        lemma_record_line(c);
        assert(parse_from(ls, i, 3, name, acc) == parse_from(ls, i + 1, 3, name, acc.push(c)));
        assert forall|j: int| 0 <= j < cs.skip(1).len() implies ls[i + 1 + j] == color_record(
            cs.skip(1)[j],
        ) by {
            assert(cs.skip(1)[j] == cs[j + 1]);
        }
        lemma_parse_color_lines(ls, i + 1, name, acc.push(c), cs.skip(1));
        assert(acc.push(c) + cs.skip(1) =~= acc + cs);
    }
}

/// The round trip of the palette format: encoding a name and a color
/// list and decoding the result succeeds and yields the trimmed name
/// and exactly the same colors in the same order. It holds for every
/// name without a newline character (a name with one would span two
/// lines when written) and for every color list, duplicates and
/// boundary channel values included.
pub proof fn lemma_gpl_round_trip(name: Seq<char>, colors: Seq<Color>)
    requires
        !name.contains('\n'),
    ensures
        parse_gpl(gpl_text(name, colors)) == ParseOutcome::Ok((trim(name), colors)),
{
    reveal_strlit("GIMP Palette\n");
    reveal_strlit("GIMP Palette");
    reveal_strlit("Name: ");
    reveal_strlit("Name:");
    reveal_strlit("Columns: ");
    reveal_strlit("Columns:");
    reveal_strlit("\n");
    let l1 = "GIMP Palette"@;
    let l2 = "Name: "@ + name;
    let dec = dec_of(colors.len());
    let l3 = "Columns: "@ + dec;
    let body = records_text(colors);
    let gt = gpl_text(name, colors);
    lemma_dec_plain(colors.len());
    // the text splits into the three header lines, the record lines
    // and a final empty line
    let rest2 = l3 + seq!['\n'] + body;
    let rest1 = l2 + seq!['\n'] + rest2;
    assert(gt =~= l1 + seq!['\n'] + rest1);
    assert forall|j: int| 0 <= j < l1.len() implies l1[j] != '\n' by {}
    assert forall|j: int| 0 <= j < l2.len() implies l2[j] != '\n' by {
        if j >= 6 {
            assert(l2[j] == name[j - 6]);
            assert(!name.contains('\n'));
        }
    }
    assert forall|j: int| 0 <= j < l3.len() implies l3[j] != '\n' by {
        if j >= 9 {
            assert(l3[j] == dec[j - 9]);
        }
    }
    lemma_split_lines_line(l1, rest1);
    lemma_split_lines_line(l2, rest2);
    lemma_split_lines_line(l3, body);
    lemma_split_records(colors);
    let sl = split_lines(gt);
    assert(sl == seq![l1] + (seq![l2] + (seq![l3] + record_lines(colors).push(
        Seq::<char>::empty(),
    ))));
    assert(sl.len() == colors.len() + 4);
    assert(sl[0] == l1);
    assert(sl[1] == l2);
    assert(sl[2] == l3);
    assert forall|j: int| 0 <= j < colors.len() implies sl[3 + j] == color_record(colors[j]) by {
        assert(sl[3 + j] == record_lines(colors).push(Seq::<char>::empty())[j]);
    }
    assert(sl[sl.len() - 1] == Seq::<char>::empty());
    // the signature line
    assert(l1.last() != '\r');
    assert(strip_cr(l1) == l1);
    assert(!is_space(l1[0]));
    lemma_trim_front_skip(l1, 0);
    assert(l1.skip(0) =~= l1);
    assert(!is_skip(l1));
    assert(parse_from(sl, 0, 0, Seq::<char>::empty(), Seq::<Color>::empty()) == parse_from(
        sl,
        1,
        1,
        Seq::<char>::empty(),
        Seq::<Color>::empty(),
    ));
    // the name line
    let l2s = strip_cr(l2);
    assert(l2.len() >= 6);
    assert(l2s.len() >= 5);
    assert(l2s[0] == 'N');
    assert(l2s.take(5) =~= "Name:"@);
    assert(!is_space(l2s[0]));
    lemma_trim_front_skip(l2s, 0);
    assert(l2s.skip(0) =~= l2s);
    assert(!is_skip(l2s));
    assert(l2.skip(5) =~= seq![' '] + name);
    assert(l2s.skip(5) =~= strip_cr(seq![' '] + name));
    lemma_trim_strip_cr(seq![' '] + name);
    lemma_trim_space_prefix(' ', name);
    assert(trim(l2s.skip(5)) == trim(name));
    assert(parse_from(sl, 1, 1, Seq::<char>::empty(), Seq::<Color>::empty()) == parse_from(
        sl,
        2,
        2,
        trim(name),
        Seq::<Color>::empty(),
    ));
    // the column count line
    assert(l3.len() >= 10);
    assert(l3.last() == dec[dec.len() - 1]);
    assert(l3.last() != '\r');
    assert(strip_cr(l3) == l3);
    assert(l3[0] == 'C');
    assert(!is_space(l3[0]));
    lemma_trim_front_skip(l3, 0);
    assert(l3.skip(0) =~= l3);
    assert(!is_skip(l3));
    assert(l3.take(8) =~= "Columns:"@);
    assert(parse_from(sl, 2, 2, trim(name), Seq::<Color>::empty()) == parse_from(
        sl,
        3,
        3,
        trim(name),
        Seq::<Color>::empty(),
    ));
    // the record lines and the final empty line
    lemma_parse_color_lines(sl, 3, trim(name), Seq::<Color>::empty(), colors);
    assert(Seq::<Color>::empty() + colors =~= colors);
}

} // verus!
