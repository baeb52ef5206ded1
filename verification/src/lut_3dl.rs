//! The text of a `.3dl` LUT file (Autodesk/Lustre): lines of white-space separated
//! integers, of which each line with three or more fields gives one 12-bit RGB entry
//! of a 33 by 33 by 33 table. Empty lines and lines starting with `#` are skipped.

use vstd::prelude::*;
use crate::decimal::{dec_padded, push_decimal};

verus! {

broadcast use vstd::string::axiom_spec_iter;

/// Entries of a 33 by 33 by 33 table.
pub const TABLE_ENTRIES: usize = 35937;

/// White space as Unicode defines it (the `White_Space` property, which
/// `char::is_whitespace` tests).
pub open spec fn is_white(c: char) -> bool {
    let v = c as u32;
    ||| 9 <= v <= 13
    ||| v == 32
    ||| v == 0x85
    ||| v == 0xA0
    ||| v == 0x1680
    ||| 0x2000 <= v <= 0x200A
    ||| v == 0x2028
    ||| v == 0x2029
    ||| v == 0x202F
    ||| v == 0x205F
    ||| v == 0x3000
}

pub(crate) fn is_white_char(c: char) -> (b: bool)
    ensures
        b == is_white(c),
{
    let v = c as u32;
    (9 <= v && v <= 13) || v == 32 || v == 0x85 || v == 0xA0 || v == 0x1680 || (0x2000 <= v && v <= 0x200A)
        || v == 0x2028 || v == 0x2029 || v == 0x202F || v == 0x205F || v == 0x3000
}

/// `s` cut at every character that `sep` holds of (the separators dropped): the
/// pieces between separators, in order, empty ones included.
pub open spec fn split_on(s: Seq<char>, sep: spec_fn(char) -> bool) -> Seq<Seq<char>>
    decreases s.len(),
{
    if s.len() == 0 {
        seq![Seq::<char>::empty()]
    } else {
        let pieces = split_on(s.drop_last(), sep);
        if sep(s.last()) {
            pieces.push(Seq::<char>::empty())
        } else {
            pieces.update(pieces.len() - 1, pieces.last().push(s.last()))
        }
    }
}

proof fn lemma_split_on_nonempty(s: Seq<char>, sep: spec_fn(char) -> bool)
    ensures
        split_on(s, sep).len() >= 1,
    decreases s.len(),
{
    if s.len() > 0 {
        lemma_split_on_nonempty(s.drop_last(), sep);
    }
}

/// The lines of a text: the pieces between line feeds.
pub open spec fn lines(s: Seq<char>) -> Seq<Seq<char>> {
    split_on(s, |c: char| c == '\n')
}

/// The words of a line: its maximal runs of characters other than white space.
pub open spec fn words(s: Seq<char>) -> Seq<Seq<char>> {
    split_on(s, |c: char| is_white(c)).filter(|w: Seq<char>| w.len() > 0)
}

/// The views of a vector of character vectors.
pub open spec fn views(v: Seq<Vec<char>>) -> Seq<Seq<char>> {
    v.map_values(|w: Vec<char>| w@)
}

/// The words of a line.
pub(crate) fn split_words(line: &Vec<char>) -> (ws: Vec<Vec<char>>)
    ensures
        views(ws@) == words(line@),
{
    let ghost white = |c: char| is_white(c);
    let ghost nonempty = |w: Seq<char>| w.len() > 0;
    let mut ws: Vec<Vec<char>> = Vec::new();
    let mut cur: Vec<char> = Vec::new();
    let ghost mut segs: Seq<Seq<char>> = Seq::empty();
    let mut i: usize = 0;
    while i < line.len()
        invariant
            i <= line@.len(),
            white == (|c: char| is_white(c)),
            nonempty == (|w: Seq<char>| w.len() > 0),
            split_on(line@.take(i as int), white) == segs.push(cur@),
            views(ws@) == segs.filter(nonempty),
        decreases line@.len() - i,
    {
        let c = line[i];
        proof {
            assert(line@.take(i + 1).drop_last() =~= line@.take(i as int));
            assert(line@.take(i + 1).last() == c);
        }
        if is_white_char(c) {
            let ghost old_segs = segs;
            let ghost old_ws = views(ws@);
            let ghost old_cur = cur@;
            proof {
                old_segs.lemma_filter_push(old_cur, nonempty);
            }
            if cur.len() > 0 {
                ws.push(cur);
                proof {
                    assert(views(ws@) =~= old_ws.push(old_cur));
                }
            }
            proof {
                segs = old_segs.push(old_cur);
            }
            cur = Vec::new();
        } else {
            cur.push(c);
            proof {
                assert(split_on(line@.take(i + 1), white) =~= segs.push(cur@));
            }
        }
        i += 1;
    }
    proof {
        assert(line@.take(line@.len() as int) =~= line@);
        segs.lemma_filter_push(cur@, nonempty);
    }
    let ghost old_ws = views(ws@);
    let ghost last = cur@;
    if cur.len() > 0 {
        ws.push(cur);
        proof {
            assert(views(ws@) =~= old_ws.push(last));
        }
    }
    ws
}

/// Why a field is not a `u32` (the two ways a non-empty field can fail).
#[derive(Clone, Copy, Debug, PartialEq, Eq)]
pub enum FieldError {
    /// A character other than a decimal digit (a leading `+` aside).
    InvalidDigit,
    /// The value exceeds `u32::MAX`.
    PosOverflow,
}

/// `c` is a decimal digit.
pub open spec fn is_digit(c: char) -> bool {
    '0' <= c && c <= '9'
}

/// Reading the digits of `ds` left to right: the value, or the error at the first
/// character that is not a digit or that takes the value past `u32::MAX`.
pub open spec fn read_digits(ds: Seq<char>) -> Result<u32, FieldError>
    decreases ds.len(),
{
    if ds.len() == 0 {
        Ok(0)
    } else {
        match read_digits(ds.drop_last()) {
            Err(e) => Err(e),
            Ok(v) => {
                let c = ds.last();
                if !is_digit(c) {
                    Err(FieldError::InvalidDigit)
                } else if v * 10 + (c as int - '0' as int) > u32::MAX {
                    Err(FieldError::PosOverflow)
                } else {
                    Ok((v * 10 + (c as int - '0' as int)) as u32)
                }
            },
        }
    }
}

/// A non-empty field read as a `u32` in decimal, with an optional leading `+` (a
/// sign alone is an invalid digit), as `str::parse::<u32>` reads it.
pub open spec fn parse_field(w: Seq<char>) -> Result<u32, FieldError> {
    if w.len() == 1 && (w[0] == '+' || w[0] == '-') {
        Err(FieldError::InvalidDigit)
    } else if w.len() >= 1 && w[0] == '+' {
        read_digits(w.skip(1))
    } else {
        read_digits(w)
    }
}

/// Read a non-empty field as a `u32`.
fn parse_field_chars(w: &Vec<char>) -> (r: Result<u32, FieldError>)
    requires
        w@.len() > 0,
    ensures
        r == parse_field(w@),
{
    if w.len() == 1 && (w[0] == '+' || w[0] == '-') {
        return Err(FieldError::InvalidDigit);
    }
    let start: usize = if w[0] == '+' {
        1
    } else {
        0
    };
    let ghost ds = w@.skip(start as int);
    proof {
        if start == 0 {
            assert(ds =~= w@);
        }
        assert(parse_field(w@) == read_digits(ds));
        assert(ds.take(0) =~= Seq::<char>::empty());
    }
    let mut v: u32 = 0;
    let mut i: usize = start;
    while i < w.len()
        invariant
            start <= i <= w@.len(),
            ds == w@.skip(start as int),
            parse_field(w@) == read_digits(ds),
            read_digits(ds.take(i - start)) == Ok::<u32, FieldError>(v),
        decreases w@.len() - i,
    {
        let c = w[i];
        proof {
            assert(ds.take(i + 1 - start).drop_last() =~= ds.take(i - start));
            assert(ds.take(i + 1 - start).last() == c);
        }
        if !('0' <= c && c <= '9') {
            proof {
                lemma_read_digits_error_stays(ds, (i + 1 - start) as nat, FieldError::InvalidDigit);
            }
            return Err(FieldError::InvalidDigit);
        }
        let d = (c as u32) - ('0' as u32);
        if v > 429496729 || (v == 429496729 && d > 5) {
            proof {
                lemma_read_digits_error_stays(ds, (i + 1 - start) as nat, FieldError::PosOverflow);
            }
            return Err(FieldError::PosOverflow);
        }
        v = v * 10 + d;
        i += 1;
    }
    proof {
        assert(ds.take(w@.len() - start) =~= ds);
    }
    Ok(v)
}

/// Once reading a prefix fails, reading the whole fails the same way.
proof fn lemma_read_digits_error_stays(ds: Seq<char>, n: nat, e: FieldError)
    requires
        n <= ds.len(),
        read_digits(ds.take(n as int)) == Err::<u32, FieldError>(e),
    ensures
        read_digits(ds) == Err::<u32, FieldError>(e),
    decreases ds.len() - n,
{
    if n < ds.len() {
        assert(ds.take(n + 1int).drop_last() =~= ds.take(n as int));
        lemma_read_digits_error_stays(ds, n + 1, e);
    } else {
        assert(ds.take(n as int) =~= ds);
    }
}

/// The message of a field that is not a `u32`, as `ParseIntError` displays it.
pub open spec fn field_error_text(e: FieldError) -> Seq<char> {
    match e {
        FieldError::InvalidDigit => "invalid digit found in string"@,
        FieldError::PosOverflow => "number too large to fit in target type"@,
    }
}

/// The error of channel `k` (0 red, 1 green, 2 blue) that is not a `u32`.
pub open spec fn channel_error(k: int, e: FieldError) -> Seq<char> {
    (if k == 0 {
        "Invalid R value: "@
    } else if k == 1 {
        "Invalid G value: "@
    } else {
        "Invalid B value: "@
    }) + field_error_text(e)
}

/// What one line gives: nothing (`Ok(None)`: blank, a comment, or fewer than three
/// fields), an entry read from its first three fields, or the error of the first of
/// them that is not a `u32`.
pub open spec fn line_entry(line: Seq<char>) -> Result<Option<(u32, u32, u32)>, Seq<char>> {
    let ws = words(line);
    if ws.len() == 0 || ws[0][0] == '#' || ws.len() < 3 {
        Ok(None)
    } else {
        match (parse_field(ws[0]), parse_field(ws[1]), parse_field(ws[2])) {
            (Err(e), _, _) => Err(channel_error(0, e)),
            (Ok(_), Err(e), _) => Err(channel_error(1, e)),
            (Ok(_), Ok(_), Err(e)) => Err(channel_error(2, e)),
            (Ok(r), Ok(g), Ok(b)) => Ok(Some((r, g, b))),
        }
    }
}

fn error_text(channel: usize, e: FieldError) -> (m: String)
    requires
        channel < 3,
    ensures
        m@ == channel_error(channel as int, e),
{
    let mut m = if channel == 0 {
        "Invalid R value: ".to_owned()
    } else if channel == 1 {
        "Invalid G value: ".to_owned()
    } else {
        "Invalid B value: ".to_owned()
    };
    match e {
        FieldError::InvalidDigit => m.append("invalid digit found in string"),
        FieldError::PosOverflow => m.append("number too large to fit in target type"),
    }
    m
}

/// What one line gives.
fn read_line(line: &Vec<char>) -> (r: Result<Option<(u32, u32, u32)>, String>)
    ensures
        match r {
            Ok(o) => line_entry(line@) == Ok::<Option<(u32, u32, u32)>, Seq<char>>(o),
            Err(m) => line_entry(line@) == Err::<Option<(u32, u32, u32)>, Seq<char>>(m@),
        },
{
    let ws = split_words(line);
    proof {
        assert(views(ws@).len() == ws@.len());
        assert(forall|i: int| 0 <= i < ws@.len() ==> #[trigger] views(ws@)[i] == ws@[i]@);
        assert forall|i: int| 0 <= i < ws@.len() implies #[trigger] ws@[i]@.len() > 0 by {
            broadcast use vstd::seq_lib::group_filter_ensures;

            let seg = split_on(line@, |c: char| is_white(c));
            assert(views(ws@)[i] == seg.filter(|w: Seq<char>| w.len() > 0)[i]);
        }
    }
    if ws.len() == 0 || ws[0][0] == '#' || ws.len() < 3 {
        return Ok(None);
    }
    let r = match parse_field_chars(&ws[0]) {
        Ok(v) => v,
        Err(e) => return Err(error_text(0, e)),
    };
    let g = match parse_field_chars(&ws[1]) {
        Ok(v) => v,
        Err(e) => return Err(error_text(1, e)),
    };
    let b = match parse_field_chars(&ws[2]) {
        Ok(v) => v,
        Err(e) => return Err(error_text(2, e)),
    };
    Ok(Some((r, g, b)))
}

/// The entries read from the first lines `ls`, in order and at most a table's worth,
/// or the first line's error.
pub open spec fn read_entries(ls: Seq<Seq<char>>) -> Result<Seq<(u32, u32, u32)>, Seq<char>>
    decreases ls.len(),
{
    if ls.len() == 0 {
        Ok(Seq::empty())
    } else {
        match read_entries(ls.drop_last()) {
            Err(m) => Err(m),
            Ok(es) => match line_entry(ls.last()) {
                Err(m) => Err(m),
                Ok(None) => Ok(es),
                Ok(Some(e)) => if es.len() < TABLE_ENTRIES {
                    Ok(es.push(e))
                } else {
                    Ok(es)
                },
            },
        }
    }
}

/// The table a `.3dl` text holds: its entries when there are exactly a table's
/// worth, otherwise the error that says how many were read; or the first line's
/// error.
pub open spec fn table_of(text: Seq<char>) -> Result<Seq<(u32, u32, u32)>, Seq<char>> {
    match read_entries(lines(text)) {
        Err(m) => Err(m),
        Ok(es) => if es.len() == TABLE_ENTRIES {
            Ok(es)
        } else {
            Err("Incomplete .3dl data: got "@ + dec_padded(es.len(), 0) + " entries"@)
        },
    }
}

/// Parse the text of a `.3dl` LUT file into its 35937 raw RGB entries (12-bit values
/// as written, red, green, blue), or the error of the first line whose first three
/// fields are not all `u32`s, or the error that says how many entries there were
/// when not a full table.
pub fn parse_3dl_text(text: &str) -> (r: Result<Vec<(u32, u32, u32)>, String>)
    ensures
        match r {
            Ok(v) => table_of(text@) == Ok::<Seq<(u32, u32, u32)>, Seq<char>>(v@),
            Err(m) => table_of(text@) == Err::<Seq<(u32, u32, u32)>, Seq<char>>(m@),
        },
{
    let ghost nl = |c: char| c == '\n';
    let mut chars: Vec<char> = Vec::new();
    for c in it: text.chars()
        invariant
            it.seq() == text@,
            chars@ == text@.take(it.index() as int),
    {
        chars.push(c);
    }
    proof {
        assert(chars@ =~= text@);
    }
    let mut entries: Vec<(u32, u32, u32)> = Vec::new();
    let mut error: Option<String> = None;
    let mut line: Vec<char> = Vec::new();
    let ghost mut done: Seq<Seq<char>> = Seq::empty();
    let mut i: usize = 0;
    while i < chars.len()
        invariant
            i <= chars@.len(),
            chars@ == text@,
            nl == (|c: char| c == '\n'),
            split_on(chars@.take(i as int), nl) == done.push(line@),
            match error {
                Some(m) => read_entries(done) == Err::<Seq<(u32, u32, u32)>, Seq<char>>(m@),
                None => read_entries(done) == Ok::<Seq<(u32, u32, u32)>, Seq<char>>(entries@),
            },
            entries@.len() <= TABLE_ENTRIES,
        decreases chars@.len() - i,
    {
        let c = chars[i];
        proof {
            assert(chars@.take(i + 1).drop_last() =~= chars@.take(i as int));
            assert(chars@.take(i + 1).last() == c);
        }
        if c == '\n' {
            let ghost old_done = done;
            let ghost old_line = line@;
            proof {
                assert(done.push(line@).drop_last() =~= done);
            }
            if error.is_none() {
                match read_line(&line) {
                    Err(m) => {
                        error = Some(m);
                    },
                    Ok(None) => {},
                    Ok(Some(e)) => {
                        if entries.len() < TABLE_ENTRIES {
                            entries.push(e);
                        }
                    },
                }
            }
            proof {
                done = old_done.push(old_line);
                assert(done.drop_last() =~= old_done);
            }
            line = Vec::new();
        } else {
            line.push(c);
            proof {
                assert(split_on(chars@.take(i + 1), nl) =~= done.push(line@));
            }
        }
        i += 1;
    }
    proof {
        assert(chars@.take(chars@.len() as int) =~= chars@);
        assert(lines(text@) == done.push(line@));
        assert(done.push(line@).drop_last() =~= done);
    }
    if let Some(m) = error {
        return Err(m);
    }
    match read_line(&line) {
        Err(m) => {
            return Err(m);
        },
        Ok(None) => {},
        Ok(Some(e)) => {
            if entries.len() < TABLE_ENTRIES {
                entries.push(e);
            }
        },
    }
    if entries.len() != TABLE_ENTRIES {
        let mut m = "Incomplete .3dl data: got ".to_owned();
        push_decimal(&mut m, entries.len() as u64, 0);
        m.append(" entries");
        return Err(m);
    }
    Ok(entries)
}

} // verus!
