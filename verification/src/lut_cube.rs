//! The text of a `.cube` LUT file (Adobe/Resolve): a header of `TITLE`,
//! `LUT_3D_SIZE`, `DOMAIN_MIN` and `DOMAIN_MAX` lines, then one line of three numbers
//! per table entry. Each line is trimmed first; empty lines and lines starting with
//! `#` are skipped. The numbers of the header's domain and of the rows are floats,
//! which this reader hands on as the words they are written as.

use vstd::prelude::*;
use crate::decimal::{dec_padded, push_decimal};
use crate::lut_3dl::{
    FieldError, field_error_text, is_digit, is_white, is_white_char, lines, split_on, split_words,
    views, words,
};

verus! {

broadcast use vstd::string::axiom_spec_iter;

/// Three words of a line, as written.
pub type Words3 = (String, String, String);

/// The character sequences of three words.
pub open spec fn words3_view(w: Words3) -> (Seq<char>, Seq<char>, Seq<char>) {
    (w.0@, w.1@, w.2@)
}

/// The character sequences of an optional three words.
pub open spec fn opt_words3_view(o: Option<Words3>) -> Option<(Seq<char>, Seq<char>, Seq<char>)> {
    match o {
        Some(w) => Some(words3_view(w)),
        None => None,
    }
}

/// The character sequences of a list of three words.
pub open spec fn rows_view(rs: Seq<Words3>) -> Seq<(Seq<char>, Seq<char>, Seq<char>)> {
    rs.map_values(|w: Words3| words3_view(w))
}

/// What a trim strips: white space, or (with `quotes`) the double quote.
pub open spec fn strip_pred(quotes: bool) -> spec_fn(char) -> bool {
    if quotes {
        |c: char| c == '"'
    } else {
        |c: char| is_white(c)
    }
}

/// `s` without the characters that `p` holds of at its start.
pub open spec fn trim_start_by(s: Seq<char>, p: spec_fn(char) -> bool) -> Seq<char>
    decreases s.len(),
{
    if s.len() > 0 && p(s[0]) {
        trim_start_by(s.drop_first(), p)
    } else {
        s
    }
}

/// `s` without the characters that `p` holds of at its end.
pub open spec fn trim_end_by(s: Seq<char>, p: spec_fn(char) -> bool) -> Seq<char>
    decreases s.len(),
{
    if s.len() > 0 && p(s.last()) {
        trim_end_by(s.drop_last(), p)
    } else {
        s
    }
}

/// `s` without the characters that `p` holds of at both ends.
pub open spec fn trim_by(s: Seq<char>, p: spec_fn(char) -> bool) -> Seq<char> {
    trim_end_by(trim_start_by(s, p), p)
}

/// `s` without white space at both ends (`str::trim`).
pub open spec fn trim(s: Seq<char>) -> Seq<char> {
    trim_by(s, strip_pred(false))
}

/// `s` without double quotes at both ends (`str::trim_matches('"')`).
pub open spec fn trim_quotes(s: Seq<char>) -> Seq<char> {
    trim_by(s, strip_pred(true))
}

/// `t` starts with `p`.
pub open spec fn starts_with(t: Seq<char>, p: Seq<char>) -> bool {
    p.len() <= t.len() && t.take(p.len() as int) == p
}

proof fn lemma_trim_start(s: Seq<char>, p: spec_fn(char) -> bool, a: int)
    requires
        0 <= a <= s.len(),
        forall|i: int| 0 <= i < a ==> p(#[trigger] s[i]),
        a == s.len() || !p(s[a]),
    ensures
        trim_start_by(s, p) == s.skip(a),
    decreases a,
{
    if a == 0 {
        assert(s.skip(0) =~= s);
    } else {
        assert(p(s[0]));
        let t = s.drop_first();
        assert forall|i: int| 0 <= i < a - 1 implies p(#[trigger] t[i]) by {
            assert(t[i] == s[i + 1]);
        }
        lemma_trim_start(t, p, a - 1);
        assert(t.skip(a - 1) =~= s.skip(a));
    }
}

proof fn lemma_trim_end(s: Seq<char>, p: spec_fn(char) -> bool, b: int)
    requires
        0 <= b <= s.len(),
        forall|i: int| b <= i < s.len() ==> p(#[trigger] s[i]),
        b == 0 || !p(s[b - 1]),
    ensures
        trim_end_by(s, p) == s.take(b),
    decreases s.len() - b,
{
    if b == s.len() {
        assert(s.take(b) =~= s);
    } else {
        assert(p(s.last()));
        let t = s.drop_last();
        lemma_trim_end(t, p, b);
        assert(t.take(b) =~= s.take(b));
    }
}

fn strips(c: char, quotes: bool) -> (b: bool)
    ensures
        b == strip_pred(quotes)(c),
{
    if quotes {
        c == '"'
    } else {
        is_white_char(c)
    }
}

/// `s` without the characters that `strip_pred(quotes)` holds of at both ends.
fn trim_chars(s: &Vec<char>, quotes: bool) -> (t: Vec<char>)
    ensures
        t@ == trim_by(s@, strip_pred(quotes)),
{
    let ghost p = strip_pred(quotes);
    let n = s.len();
    let mut a: usize = 0;
    while a < n && strips(s[a], quotes)
        invariant
            n == s@.len(),
            a <= n,
            p == strip_pred(quotes),
            forall|i: int| 0 <= i < a ==> p(#[trigger] s@[i]),
        decreases n - a,
    {
        a += 1;
    }
    proof {
        lemma_trim_start(s@, p, a as int);
    }
    let ghost u = s@.skip(a as int);
    let mut b: usize = n;
    while b > a && strips(s[b - 1], quotes)
        invariant
            n == s@.len(),
            a <= b <= n,
            p == strip_pred(quotes),
            u == s@.skip(a as int),
            forall|i: int| b <= i < n ==> p(#[trigger] s@[i]),
        decreases b - a,
    {
        b -= 1;
    }
    proof {
        assert forall|i: int| b - a <= i < u.len() implies p(#[trigger] u[i]) by {
            assert(u[i] == s@[i + a]);
        }
        if b > a {
            assert(u[b - a - 1] == s@[b - 1]);
        }
        lemma_trim_end(u, p, b - a);
    }
    let mut t: Vec<char> = Vec::new();
    let mut i: usize = a;
    while i < b
        invariant
            a <= i <= b <= n,
            n == s@.len(),
            t@ == s@.subrange(a as int, i as int),
        decreases b - i,
    {
        t.push(s[i]);
        i += 1;
        proof {
            assert(t@ =~= s@.subrange(a as int, i as int));
        }
    }
    proof {
        assert(t@ =~= u.take(b - a));
    }
    t
}

/// `t` starts with the characters of `p`.
fn starts_with_str(t: &Vec<char>, p: &str) -> (b: bool)
    ensures
        b == starts_with(t@, p@),
{
    let k = p.unicode_len();
    if k > t.len() {
        return false;
    }
    let mut i: usize = 0;
    while i < k
        invariant
            k == p@.len(),
            k <= t@.len(),
            i <= k,
            t@.take(i as int) == p@.take(i as int),
        decreases k - i,
    {
        if t[i] != p.get_char(i) {
            proof {
                assert(t@.take(k as int)[i as int] != p@[i as int]);
            }
            return false;
        }
        i += 1;
        proof {
            assert(t@.take(i as int) =~= p@.take(i as int));
        }
    }
    proof {
        assert(p@.take(k as int) =~= p@);
    }
    true
}

/// Reading the digits of `ds` left to right into a `usize`: the value, or the error at
/// the first character that is not a digit or that takes the value past `usize::MAX`.
pub open spec fn read_size_digits(ds: Seq<char>) -> Result<usize, FieldError>
    decreases ds.len(),
{
    if ds.len() == 0 {
        Ok(0)
    } else {
        match read_size_digits(ds.drop_last()) {
            Err(e) => Err(e),
            Ok(v) => {
                let c = ds.last();
                if !is_digit(c) {
                    Err(FieldError::InvalidDigit)
                } else if v * 10 + (c as int - '0' as int) > usize::MAX {
                    Err(FieldError::PosOverflow)
                } else {
                    Ok((v * 10 + (c as int - '0' as int)) as usize)
                }
            },
        }
    }
}

/// A non-empty word read as a `usize` in decimal, with an optional leading `+` (a
/// sign alone is an invalid digit), as `str::parse::<usize>` reads it.
pub open spec fn parse_size(w: Seq<char>) -> Result<usize, FieldError> {
    if w.len() == 1 && (w[0] == '+' || w[0] == '-') {
        Err(FieldError::InvalidDigit)
    } else if w.len() >= 1 && w[0] == '+' {
        read_size_digits(w.skip(1))
    } else {
        read_size_digits(w)
    }
}

/// Once reading a prefix fails, reading the whole fails the same way.
proof fn lemma_size_error_stays(ds: Seq<char>, n: nat, e: FieldError)
    requires
        n <= ds.len(),
        read_size_digits(ds.take(n as int)) == Err::<usize, FieldError>(e),
    ensures
        read_size_digits(ds) == Err::<usize, FieldError>(e),
    decreases ds.len() - n,
{
    if n < ds.len() {
        assert(ds.take(n + 1int).drop_last() =~= ds.take(n as int));
        lemma_size_error_stays(ds, n + 1, e);
    } else {
        assert(ds.take(n as int) =~= ds);
    }
}

/// Read a non-empty word as a `usize`.
fn parse_size_chars(w: &Vec<char>) -> (r: Result<usize, FieldError>)
    requires
        w@.len() > 0,
    ensures
        r == parse_size(w@),
{
    if w.len() == 1 && (w[0] == '+' || w[0] == '-') {
        return Err(FieldError::InvalidDigit);
    }
    let start: usize = if w[0] == '+' {
        1
    } else {
        0
    };
    let ghost ds = w@.skip(start as int);
    proof {
        if start == 0 {
            assert(ds =~= w@);
        }
        assert(ds.take(0) =~= Seq::<char>::empty());
    }
    let mut v: usize = 0;
    let mut i: usize = start;
    while i < w.len()
        invariant
            start <= i <= w@.len(),
            ds == w@.skip(start as int),
            parse_size(w@) == read_size_digits(ds),
            read_size_digits(ds.take(i - start)) == Ok::<usize, FieldError>(v),
        decreases w@.len() - i,
    {
        let c = w[i];
        proof {
            assert(ds.take(i + 1 - start).drop_last() =~= ds.take(i - start));
            assert(ds.take(i + 1 - start).last() == c);
        }
        if !('0' <= c && c <= '9') {
            proof {
                lemma_size_error_stays(ds, (i + 1 - start) as nat, FieldError::InvalidDigit);
            }
            return Err(FieldError::InvalidDigit);
        }
        let d = ((c as u32) - ('0' as u32)) as usize;
        let next = match v.checked_mul(10) {
            Some(m) => m.checked_add(d),
            None => None,
        };
        match next {
            Some(n) => {
                v = n;
            },
            None => {
                proof {
                    lemma_size_error_stays(ds, (i + 1 - start) as nat, FieldError::PosOverflow);
                }
                return Err(FieldError::PosOverflow);
            },
        }
        i += 1;
    }
    proof {
        assert(ds.take(w@.len() - start) =~= ds);
    }
    Ok(v)
}

/// Which rule a trimmed line of a `.cube` text falls under.
#[derive(Clone, Copy, Debug, PartialEq, Eq)]
pub enum CubeLineKind {
    /// An empty line or a comment.
    Skip,
    /// A line starting with `TITLE`.
    Title,
    /// A line starting with `LUT_3D_SIZE`.
    Size,
    /// A line starting with `DOMAIN_MIN`.
    DomainMin,
    /// A line starting with `DOMAIN_MAX`.
    DomainMax,
    /// Any other line.
    Data,
}

/// The rule of a trimmed line: the first that applies, in this order.
pub open spec fn line_kind(t: Seq<char>) -> CubeLineKind {
    if t.len() == 0 || t[0] == '#' {
        CubeLineKind::Skip
    } else if starts_with(t, "TITLE"@) {
        CubeLineKind::Title
    } else if starts_with(t, "LUT_3D_SIZE"@) {
        CubeLineKind::Size
    } else if starts_with(t, "DOMAIN_MIN"@) {
        CubeLineKind::DomainMin
    } else if starts_with(t, "DOMAIN_MAX"@) {
        CubeLineKind::DomainMax
    } else {
        CubeLineKind::Data
    }
}

/// Whether a line of a `.cube` text carries anything: a `TITLE` line always, a
/// `LUT_3D_SIZE` line with two words or more, a domain line with four words or more,
/// and a data line with three words or more.
pub open spec fn carries_item(line: Seq<char>) -> bool {
    let t = trim(line);
    let n = words(t).len();
    match line_kind(t) {
        CubeLineKind::Skip => false,
        CubeLineKind::Title => true,
        CubeLineKind::Size => n >= 2,
        CubeLineKind::DomainMin => n >= 4,
        CubeLineKind::DomainMax => n >= 4,
        CubeLineKind::Data => n >= 3,
    }
}

/// What one line of a `.cube` text carries, as read; the domain and row words are
/// floats still as written.
#[derive(Debug)]
pub enum CubeItem {
    /// The title: after the keyword, trimmed of white space and then of quotes.
    Title(String),
    /// A table size: the second word read as a `usize`.
    Size(usize),
    /// A second word of a size line that is not a `usize`.
    BadSize(FieldError),
    /// The second to fourth words of a `DOMAIN_MIN` line.
    DomainMin(Words3),
    /// The second to fourth words of a `DOMAIN_MAX` line.
    DomainMax(Words3),
    /// The first three words of a data line.
    Row(Words3),
}

/// `it` is what `line` carries.
pub open spec fn item_of_line(it: CubeItem, line: Seq<char>) -> bool {
    let t = trim(line);
    let ws = words(t);
    match it {
        CubeItem::Title(s) => line_kind(t) is Title && s@ == trim_quotes(trim(t.skip("TITLE"@.len() as int))),
        CubeItem::Size(n) => line_kind(t) is Size && ws.len() >= 2 && parse_size(ws[1]) == Ok::<usize, FieldError>(n),
        CubeItem::BadSize(e) => line_kind(t) is Size && ws.len() >= 2 && parse_size(ws[1]) == Err::<usize, FieldError>(e),
        CubeItem::DomainMin(w) => line_kind(t) is DomainMin && ws.len() >= 4 && words3_view(w) == (ws[1], ws[2], ws[3]),
        CubeItem::DomainMax(w) => line_kind(t) is DomainMax && ws.len() >= 4 && words3_view(w) == (ws[1], ws[2], ws[3]),
        CubeItem::Row(w) => line_kind(t) is Data && ws.len() >= 3 && words3_view(w) == (ws[0], ws[1], ws[2]),
    }
}

/// `items` are what the lines `ls` carry, one for each line that carries anything,
/// in order.
pub open spec fn items_of_lines(items: Seq<CubeItem>, ls: Seq<Seq<char>>) -> bool
    decreases ls.len(),
{
    if ls.len() == 0 {
        items.len() == 0
    } else if carries_item(ls.last()) {
        &&& items.len() > 0
        &&& item_of_line(items.last(), ls.last())
        &&& items_of_lines(items.drop_last(), ls.drop_last())
    } else {
        items_of_lines(items, ls.drop_last())
    }
}

/// Item `i` fails: a size that is not a `usize`, or the item whose words the caller
/// found not to be floats (`bad`).
pub open spec fn fails_at(items: Seq<CubeItem>, bad: Option<usize>, i: int) -> bool {
    items[i] is BadSize || bad == Some(i as usize)
}

/// The first of the first `n` items that fails, if any.
pub open spec fn first_failure(items: Seq<CubeItem>, bad: Option<usize>, n: nat) -> Option<int>
    decreases n,
{
    if n == 0 {
        None
    } else {
        match first_failure(items, bad, (n - 1) as nat) {
            Some(i) => Some(i),
            None => if fails_at(items, bad, n - 1) {
                Some(n - 1)
            } else {
                None
            },
        }
    }
}

/// The title the items give: that of the last title, or empty.
pub open spec fn items_title(items: Seq<CubeItem>) -> Seq<char>
    decreases items.len(),
{
    if items.len() == 0 {
        Seq::empty()
    } else {
        match items.last() {
            CubeItem::Title(s) => s@,
            _ => items_title(items.drop_last()),
        }
    }
}

/// The table size the items give: that of the last size, or 0.
pub open spec fn items_size(items: Seq<CubeItem>) -> usize
    decreases items.len(),
{
    if items.len() == 0 {
        0
    } else {
        match items.last() {
            CubeItem::Size(n) => n,
            _ => items_size(items.drop_last()),
        }
    }
}

/// The domain corner the items give (the upper one with `upper`): that of the last
/// such item, if any.
pub open spec fn items_domain(items: Seq<CubeItem>, upper: bool) -> Option<(Seq<char>, Seq<char>, Seq<char>)>
    decreases items.len(),
{
    if items.len() == 0 {
        None
    } else {
        match items.last() {
            CubeItem::DomainMin(w) => if !upper {
                Some(words3_view(w))
            } else {
                items_domain(items.drop_last(), upper)
            },
            CubeItem::DomainMax(w) => if upper {
                Some(words3_view(w))
            } else {
                items_domain(items.drop_last(), upper)
            },
            _ => items_domain(items.drop_last(), upper),
        }
    }
}

/// The rows the items give, in order.
pub open spec fn items_rows(items: Seq<CubeItem>) -> Seq<(Seq<char>, Seq<char>, Seq<char>)>
    decreases items.len(),
{
    if items.len() == 0 {
        Seq::empty()
    } else {
        let rs = items_rows(items.drop_last());
        match items.last() {
            CubeItem::Row(w) => rs.push(words3_view(w)),
            _ => rs,
        }
    }
}

/// The error of a size word that is not a `usize`.
pub open spec fn size_error_text(e: FieldError) -> Seq<char> {
    "Invalid LUT size: "@ + field_error_text(e)
}

/// The error of a table that no item fails, if any: no size (or size 0); a size
/// whose cube exceeds `usize::MAX`; or a number of rows other than the size's cube.
pub open spec fn table_error(items: Seq<CubeItem>) -> Option<Seq<char>> {
    let n = items_size(items);
    let rows = items_rows(items).len();
    if n == 0 {
        Some("No LUT_3D_SIZE found in file"@)
    } else if n * n * n > usize::MAX {
        Some("LUT size too large: "@ + dec_padded(n as nat, 0))
    } else if rows != n * n * n {
        Some("Data size mismatch: expected "@ + dec_padded((n * n * n) as nat, 0) + ", got "@ + dec_padded(rows, 0))
    } else {
        None
    }
}

/// `String`'s `FromIterator<char>` (std): the string of the given characters, in
/// order.
#[verifier::external_body]
fn string_of_chars(cs: &Vec<char>) -> (s: String)
    ensures
        s@ == cs@,
{
    cs.iter().collect()
}

/// The three words of `ws` from `k` on.
fn words3_at(ws: &Vec<Vec<char>>, k: usize) -> (w: Words3)
    requires
        k + 3 <= ws.len(),
    ensures
        words3_view(w) == (ws@[k as int]@, ws@[k + 1]@, ws@[k + 2]@),
{
    (string_of_chars(&ws[k]), string_of_chars(&ws[k + 1]), string_of_chars(&ws[k + 2]))
}

/// What a line carries, if anything.
fn read_item(line: &Vec<char>) -> (o: Option<CubeItem>)
    ensures
        match o {
            Some(it) => carries_item(line@) && item_of_line(it, line@),
            None => !carries_item(line@),
        },
{
    let t = trim_chars(line, false);
    if t.len() == 0 || t[0] == '#' {
        return None;
    }
    let ws = split_words(&t);
    proof {
        assert(views(ws@).len() == ws@.len());
        assert(forall|i: int| 0 <= i < ws@.len() ==> #[trigger] views(ws@)[i] == ws@[i]@);
        assert forall|i: int| 0 <= i < ws@.len() implies #[trigger] ws@[i]@.len() > 0 by {
            broadcast use vstd::seq_lib::group_filter_ensures;

            let seg = split_on(t@, |c: char| is_white(c));
            assert(views(ws@)[i] == seg.filter(|w: Seq<char>| w.len() > 0)[i]);
        }
    }
    if starts_with_str(&t, "TITLE") {
        let k = "TITLE".unicode_len();
        let mut rest: Vec<char> = Vec::new();
        let mut i: usize = k;
        while i < t.len()
            invariant
                k == "TITLE"@.len(),
                k <= i <= t@.len(),
                rest@ == t@.subrange(k as int, i as int),
            decreases t@.len() - i,
        {
            rest.push(t[i]);
            i += 1;
            proof {
                assert(rest@ =~= t@.subrange(k as int, i as int));
            }
        }
        proof {
            assert(rest@ =~= t@.skip(k as int));
        }
        let r = trim_chars(&rest, false);
        let title = trim_chars(&r, true);
        Some(CubeItem::Title(string_of_chars(&title)))
    } else if starts_with_str(&t, "LUT_3D_SIZE") {
        if ws.len() >= 2 {
            match parse_size_chars(&ws[1]) {
                Ok(n) => Some(CubeItem::Size(n)),
                Err(e) => Some(CubeItem::BadSize(e)),
            }
        } else {
            None
        }
    } else if starts_with_str(&t, "DOMAIN_MIN") {
        if ws.len() >= 4 {
            Some(CubeItem::DomainMin(words3_at(&ws, 1)))
        } else {
            None
        }
    } else if starts_with_str(&t, "DOMAIN_MAX") {
        if ws.len() >= 4 {
            Some(CubeItem::DomainMax(words3_at(&ws, 1)))
        } else {
            None
        }
    } else if ws.len() >= 3 {
        Some(CubeItem::Row(words3_at(&ws, 0)))
    } else {
        None
    }
}

/// Read the lines of a `.cube` LUT text: what each line carries, in order. The
/// floats among the words are left to the caller, which then hands the index of the
/// first item whose words are not all floats to `cube_table`.
pub fn cube_items(text: &str) -> (items: Vec<CubeItem>)
    ensures
        items_of_lines(items@, lines(text@)),
{
    let ghost nl = |c: char| c == '\n';
    let mut chars: Vec<char> = Vec::new();
    for c in it: text.chars()
        invariant
            it.seq() == text@,
            chars@ == text@.take(it.index() as int),
    {
        chars.push(c);
    }
    proof {
        assert(chars@ =~= text@);
    }
    let mut items: Vec<CubeItem> = Vec::new();
    let mut line: Vec<char> = Vec::new();
    let ghost mut done: Seq<Seq<char>> = Seq::empty();
    let mut i: usize = 0;
    while i < chars.len()
        invariant
            i <= chars@.len(),
            chars@ == text@,
            nl == (|c: char| c == '\n'),
            split_on(chars@.take(i as int), nl) == done.push(line@),
            items_of_lines(items@, done),
        decreases chars@.len() - i,
    {
        let c = chars[i];
        proof {
            assert(chars@.take(i + 1).drop_last() =~= chars@.take(i as int));
            assert(chars@.take(i + 1).last() == c);
        }
        if c == '\n' {
            let ghost next = done.push(line@);
            let ghost before = items@;
            proof {
                assert(next.drop_last() =~= done);
            }
            if let Some(it) = read_item(&line) {
                items.push(it);
                proof {
                    assert(items@.drop_last() =~= before);
                }
            }
            proof {
                done = next;
            }
            line = Vec::new();
        } else {
            line.push(c);
            proof {
                assert(split_on(chars@.take(i + 1), nl) =~= done.push(line@));
            }
        }
        i += 1;
    }
    proof {
        assert(chars@.take(chars@.len() as int) =~= chars@);
        assert(lines(text@) == done.push(line@));
        assert(done.push(line@).drop_last() =~= done);
    }
    let ghost before = items@;
    if let Some(it) = read_item(&line) {
        items.push(it);
        proof {
            assert(items@.drop_last() =~= before);
        }
    }
    items
}

/// The header and data rows of a `.cube` text, the floats still as written.
#[derive(Clone, Debug)]
pub struct CubeTable {
    /// The title (empty when there is none).
    pub title: String,
    /// Entries per axis.
    pub size: usize,
    /// The words of the lower domain corner, if given.
    pub domain_min: Option<Words3>,
    /// The words of the upper domain corner, if given.
    pub domain_max: Option<Words3>,
    /// The words of each data row, in order (red, green, blue).
    pub rows: Vec<Words3>,
}

/// Why a `.cube` text is refused.
#[derive(Clone, Debug)]
pub enum CubeFailure {
    /// The item at this index, whose words the caller found not to be floats.
    BadWord(usize),
    /// One of the reader's own errors, as text.
    Message(String),
}

/// Once an item fails, the first failure stays the same over longer prefixes.
proof fn lemma_first_failure_stays(items: Seq<CubeItem>, bad: Option<usize>, m: nat, n: nat)
    requires
        m <= n,
        first_failure(items, bad, m) is Some,
    ensures
        first_failure(items, bad, n) == first_failure(items, bad, m),
    decreases n - m,
{
    if m < n {
        lemma_first_failure_stays(items, bad, m, (n - 1) as nat);
    }
}

fn copy_words3(w: &Words3) -> (c: Words3)
    ensures
        c == *w,
{
    (w.0.clone(), w.1.clone(), w.2.clone())
}

fn size_error_message(e: FieldError) -> (m: String)
    ensures
        m@ == size_error_text(e),
{
    let mut m = "Invalid LUT size: ".to_owned();
    match e {
        FieldError::InvalidDigit => m.append("invalid digit found in string"),
        FieldError::PosOverflow => m.append("number too large to fit in target type"),
    }
    m
}

/// Assemble the table of a `.cube` text from its items (`cube_items`), taking them
/// in order: the first item that fails decides the error, a size word that is not
/// a `usize` or the item `bad_word` whose words the caller found not to be floats
/// (`None` when all are); with none failing, the table, or the error that its size
/// and number of rows give.
pub fn cube_table(items: &Vec<CubeItem>, bad_word: Option<usize>) -> (r: Result<CubeTable, CubeFailure>)
    ensures
        match first_failure(items@, bad_word, items@.len()) {
            Some(i) => match items@[i] {
                CubeItem::BadSize(e) => r matches Err(CubeFailure::Message(m)) && m@ == size_error_text(e),
                _ => r matches Err(CubeFailure::BadWord(k)) && k == i,
            },
            None => match table_error(items@) {
                Some(msg) => r matches Err(CubeFailure::Message(m)) && m@ == msg,
                None => r matches Ok(t) && {
                    &&& t.size == items_size(items@)
                    &&& t.title@ == items_title(items@)
                    &&& opt_words3_view(t.domain_min) == items_domain(items@, false)
                    &&& opt_words3_view(t.domain_max) == items_domain(items@, true)
                    &&& rows_view(t.rows@) == items_rows(items@)
                },
            },
        },
{
    let mut i: usize = 0;
    while i < items.len()
        invariant
            i <= items@.len(),
            first_failure(items@, bad_word, i as nat) is None,
        decreases items@.len() - i,
    {
        let marked = match bad_word {
            Some(k) => k == i,
            None => false,
        };
        let bad_size = match &items[i] {
            CubeItem::BadSize(_) => true,
            _ => false,
        };
        if marked || bad_size {
            proof {
                assert(first_failure(items@, bad_word, (i + 1) as nat) == Some(i as int));
                lemma_first_failure_stays(items@, bad_word, (i + 1) as nat, items@.len());
            }
            return match &items[i] {
                CubeItem::BadSize(e) => Err(CubeFailure::Message(size_error_message(*e))),
                _ => Err(CubeFailure::BadWord(i)),
            };
        }
        i += 1;
    }
    let mut title = String::new();
    let mut size: usize = 0;
    let mut domain_min: Option<Words3> = None;
    let mut domain_max: Option<Words3> = None;
    let mut rows: Vec<Words3> = Vec::new();
    proof {
        assert(items@.take(0) =~= Seq::<CubeItem>::empty());
        assert(rows_view(rows@) =~= Seq::empty());
    }
    let mut j: usize = 0;
    while j < items.len()
        invariant
            j <= items@.len(),
            title@ == items_title(items@.take(j as int)),
            size == items_size(items@.take(j as int)),
            opt_words3_view(domain_min) == items_domain(items@.take(j as int), false),
            opt_words3_view(domain_max) == items_domain(items@.take(j as int), true),
            rows_view(rows@) == items_rows(items@.take(j as int)),
        decreases items@.len() - j,
    {
        proof {
            assert(items@.take(j + 1).drop_last() =~= items@.take(j as int));
            assert(items@.take(j + 1).last() == items@[j as int]);
        }
        match &items[j] {
            CubeItem::Title(s) => {
                title = s.clone();
            },
            CubeItem::Size(n) => {
                size = *n;
            },
            CubeItem::BadSize(_) => {},
            CubeItem::DomainMin(w) => {
                domain_min = Some(copy_words3(w));
            },
            CubeItem::DomainMax(w) => {
                domain_max = Some(copy_words3(w));
            },
            CubeItem::Row(w) => {
                let c = copy_words3(w);
                let ghost before = rows@;
                rows.push(c);
                proof {
                    assert(rows_view(rows@) =~= rows_view(before).push(words3_view(c)));
                }
            },
        }
        j += 1;
    }
    proof {
        assert(items@.take(items@.len() as int) =~= items@);
        assert(rows_view(rows@).len() == rows@.len());
    }
    let n = size;
    if n == 0 {
        return Err(CubeFailure::Message("No LUT_3D_SIZE found in file".to_owned()));
    }
    let cube = match n.checked_mul(n) {
        Some(sq) => sq.checked_mul(n),
        None => {
            proof {
                assert(n * n * n >= n * n) by (nonlinear_arith)
                    requires
                        n >= 1,
                ;
            }
            None
        },
    };
    let cube = match cube {
        Some(c) => c,
        None => {
            let mut m = "LUT size too large: ".to_owned();
            push_decimal(&mut m, n as u64, 0);
            return Err(CubeFailure::Message(m));
        },
    };
    if rows.len() != cube {
        let mut m = "Data size mismatch: expected ".to_owned();
        push_decimal(&mut m, cube as u64, 0);
        m.append(", got ");
        push_decimal(&mut m, rows.len() as u64, 0);
        return Err(CubeFailure::Message(m));
    }
    Ok(CubeTable { title, size: n, domain_min, domain_max, rows })
}

/// Items that give no error make a table of at least one entry per axis and exactly
/// as many rows as the size's cube, which fits in a `usize`.
pub proof fn lemma_cube_rows_fill_the_table(items: Seq<CubeItem>)
    requires
        table_error(items) is None,
    ensures
        items_size(items) >= 1,
        items_size(items) * items_size(items) * items_size(items) <= usize::MAX,
        items_rows(items).len() == items_size(items) * items_size(items) * items_size(items),
{
}

/// The fields of a CSV line: the pieces between commas.
pub open spec fn csv_fields(t: Seq<char>) -> Seq<Seq<char>> {
    split_on(t, |c: char| c == ',')
}

/// The fields of a line.
fn split_commas(t: &Vec<char>) -> (fs: Vec<Vec<char>>)
    ensures
        views(fs@) == csv_fields(t@),
{
    let ghost comma = |c: char| c == ',';
    let mut fs: Vec<Vec<char>> = Vec::new();
    let mut cur: Vec<char> = Vec::new();
    let mut i: usize = 0;
    while i < t.len()
        invariant
            i <= t@.len(),
            comma == (|c: char| c == ','),
            split_on(t@.take(i as int), comma) == views(fs@).push(cur@),
        decreases t@.len() - i,
    {
        let c = t[i];
        proof {
            assert(t@.take(i + 1).drop_last() =~= t@.take(i as int));
            assert(t@.take(i + 1).last() == c);
        }
        if c == ',' {
            let ghost before = views(fs@);
            fs.push(cur);
            cur = Vec::new();
            proof {
                assert(views(fs@) =~= before.push(fs@.last()@));
                assert(split_on(t@.take(i + 1), comma) =~= views(fs@).push(cur@));
            }
        } else {
            cur.push(c);
            proof {
                assert(split_on(t@.take(i + 1), comma) =~= views(fs@).push(cur@));
            }
        }
        i += 1;
    }
    proof {
        assert(t@.take(t@.len() as int) =~= t@);
    }
    let ghost before = views(fs@);
    fs.push(cur);
    proof {
        assert(views(fs@) =~= before.push(fs@.last()@));
    }
    fs
}

/// The row a line of a CSV text gives, if any: the first three fields, each
/// trimmed, of the trimmed line when it is neither empty nor a comment and has three
/// fields or more.
pub open spec fn csv_row_of(line: Seq<char>) -> Option<(Seq<char>, Seq<char>, Seq<char>)> {
    let t = trim(line);
    let fs = csv_fields(t);
    if !(line_kind(t) is Skip) && fs.len() >= 3 {
        Some((trim(fs[0]), trim(fs[1]), trim(fs[2])))
    } else {
        None
    }
}

/// The rows that the lines `ls` of a CSV text give, in order.
pub open spec fn csv_rows_of(ls: Seq<Seq<char>>) -> Seq<(Seq<char>, Seq<char>, Seq<char>)>
    decreases ls.len(),
{
    if ls.len() == 0 {
        Seq::empty()
    } else {
        let rs = csv_rows_of(ls.drop_last());
        match csv_row_of(ls.last()) {
            Some(w) => rs.push(w),
            None => rs,
        }
    }
}

/// The row a line gives.
fn read_csv_line(line: &Vec<char>) -> (o: Option<Words3>)
    ensures
        opt_words3_view(o) == csv_row_of(line@),
{
    let t = trim_chars(line, false);
    if t.len() == 0 || t[0] == '#' {
        return None;
    }
    let fs = split_commas(&t);
    if fs.len() < 3 {
        return None;
    }
    Some(
        (
            string_of_chars(&trim_chars(&fs[0], false)),
            string_of_chars(&trim_chars(&fs[1], false)),
            string_of_chars(&trim_chars(&fs[2], false)),
        ),
    )
}

/// The `k` whose cube is `n`, if there is one.
pub fn exact_cube_root(n: usize) -> (r: Option<usize>)
    ensures
        match r {
            Some(k) => k * k * k == n,
            None => forall|k: int| 0 <= k ==> #[trigger] (k * k * k) != n,
        },
{
    let m = n as u128;
    let mut k: u128 = 0;
    while k * k * k < m
        invariant
            m == n,
            k <= 0x40_0000,
            k * k <= 0x1000_0000_0000,
            k * k * k <= 0x4_0000_0000_0000_0000,
            forall|j: int| 0 <= j < k ==> #[trigger] (j * j * j) < m,
        decreases m - k,
    {
        proof {
            assert(k * k * k >= k) by (nonlinear_arith)
                requires
                    k >= 1 || k == 0,
            ;
            assert(k < 0x40_0000) by (nonlinear_arith)
                requires
                    k * k * k < m,
                    m <= 0xffff_ffff_ffff_ffff,
            ;
        }
        k += 1;
        proof {
            assert(0x40_0000int * 0x40_0000int == 0x1000_0000_0000int);
            assert(0x1000_0000_0000int * 0x40_0000int == 0x4_0000_0000_0000_0000int);
            vstd::arithmetic::mul::lemma_mul_upper_bound(k as int, 0x40_0000, k as int, 0x40_0000);
            vstd::arithmetic::mul::lemma_mul_upper_bound(
                k * k,
                0x1000_0000_0000,
                k as int,
                0x40_0000,
            );
        }
    }
    proof {
        assert forall|j: int| k <= j implies #[trigger] (j * j * j) >= k * k * k by {
            assert(j * j * j >= k * k * k) by (nonlinear_arith)
                requires
                    0 <= k <= j,
            ;
        }
    }
    if k * k * k == m {
        Some(k as usize)
    } else {
        None
    }
}

/// The rows of a CSV LUT text and the number of entries per axis: the rows'
/// fields are floats, which are left to the caller as written.
#[derive(Debug)]
pub struct CsvTable {
    /// Entries per axis, or the error when the number of rows is not a cube.
    pub size: Result<usize, String>,
    /// The trimmed first three fields of each row, in order (red, green, blue).
    pub rows: Vec<Words3>,
}

/// The error of a number of rows that is not a cube.
pub open spec fn csv_size_error(total: nat) -> Seq<char> {
    "Invalid CSV data size: "@ + dec_padded(total, 0) + " is not a perfect cube"@
}

/// Read the text of a CSV LUT file (`r,g,b` per line): its rows, and the size whose
/// cube their number is or the error when there is none. Whether the fields are
/// floats is left to the caller, which reads them before it takes the size.
pub fn parse_csv_text(text: &str) -> (t: CsvTable)
    ensures
        rows_view(t.rows@) == csv_rows_of(lines(text@)),
        match t.size {
            Ok(k) => k * k * k == t.rows@.len(),
            Err(m) => (forall|k: int| 0 <= k ==> #[trigger] (k * k * k) != t.rows@.len())
                && m@ == csv_size_error(t.rows@.len()),
        },
{
    let ghost nl = |c: char| c == '\n';
    let mut chars: Vec<char> = Vec::new();
    for c in it: text.chars()
        invariant
            it.seq() == text@,
            chars@ == text@.take(it.index() as int),
    {
        chars.push(c);
    }
    proof {
        assert(chars@ =~= text@);
    }
    let mut rows: Vec<Words3> = Vec::new();
    let mut line: Vec<char> = Vec::new();
    let ghost mut done: Seq<Seq<char>> = Seq::empty();
    proof {
        assert(rows_view(rows@) =~= Seq::empty());
    }
    let mut i: usize = 0;
    while i < chars.len()
        invariant
            i <= chars@.len(),
            chars@ == text@,
            nl == (|c: char| c == '\n'),
            split_on(chars@.take(i as int), nl) == done.push(line@),
            rows_view(rows@) == csv_rows_of(done),
        decreases chars@.len() - i,
    {
        let c = chars[i];
        proof {
            assert(chars@.take(i + 1).drop_last() =~= chars@.take(i as int));
            assert(chars@.take(i + 1).last() == c);
        }
        if c == '\n' {
            let ghost next = done.push(line@);
            proof {
                assert(next.drop_last() =~= done);
            }
            if let Some(w) = read_csv_line(&line) {
                let ghost old_rows = rows@;
                rows.push(w);
                proof {
                    assert(rows_view(rows@) =~= rows_view(old_rows).push(words3_view(w)));
                }
            }
            proof {
                done = next;
            }
            line = Vec::new();
        } else {
            line.push(c);
            proof {
                assert(split_on(chars@.take(i + 1), nl) =~= done.push(line@));
            }
        }
        i += 1;
    }
    proof {
        assert(chars@.take(chars@.len() as int) =~= chars@);
        assert(lines(text@) == done.push(line@));
        assert(done.push(line@).drop_last() =~= done);
    }
    if let Some(w) = read_csv_line(&line) {
        let ghost old_rows = rows@;
        rows.push(w);
        proof {
            assert(rows_view(rows@) =~= rows_view(old_rows).push(words3_view(w)));
        }
    }
    let total = rows.len();
    proof {
        assert(rows_view(rows@).len() == rows@.len());
    }
    let size = match exact_cube_root(total) {
        Some(k) => Ok(k),
        None => {
            let mut m = "Invalid CSV data size: ".to_owned();
            push_decimal(&mut m, total as u64, 0);
            m.append(" is not a perfect cube");
            Err(m)
        },
    };
    CsvTable { size, rows }
}

} // verus!
