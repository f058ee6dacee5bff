//! One tracked file and its line in a snapshot.
//!
//! A line reads
//! `<64 lowercase hex digits> <path> # mtime <secs>.<9-digit nanos> size <bytes> fully_read <secs> last_seen <secs>`;
//! fractional seconds after `fully_read` and `last_seen` are accepted on reading.
use vstd::prelude::*;

use crate::digest::{
    all_hex_lower, bytes_of_hex, hex_decode, hex_encode, hex_of, is_hex_lower,
    lemma_hex_round_trip,
};
use crate::text::{
    all_digits, chars_of, is_digit, dec_padded, dec_repr, dec_value, digits_end, find_last, has_lit_at,
    last_index_of, lemma_dec_padded, lemma_dec_repr, lemma_dec_value_below, lemma_digits_end, lemma_digits_end_bounds,
    lemma_last_index_of, lemma_pow10_pos, lit_at, parse_u64, pow10, push_char, push_decimal,
    push_decimal_padded, push_str, scan_digits,
};

verus! {

/// A tracked file. Times are counted from the Unix epoch; `fully_read` and
/// `last_seen` are kept in whole seconds.
#[derive(Debug, Clone, PartialEq, Eq)]
pub struct FileInfo {
    /// Slash-separated path relative to the tree's root.
    pub rel_path: String,
    pub sha256_digest: [u8; 32],
    pub mtime_secs: u64,
    /// Below one second.
    pub mtime_nanos: u32,
    pub len: u64,
    pub last_seen: u64,
    pub fully_read: u64,
}

pub struct FileInfoView {
    pub rel_path: Seq<char>,
    pub digest: Seq<u8>,
    pub mtime_secs: u64,
    pub mtime_nanos: u32,
    pub len: u64,
    pub last_seen: u64,
    pub fully_read: u64,
}

impl View for FileInfo {
    type V = FileInfoView;

    open spec fn view(&self) -> FileInfoView {
        FileInfoView {
            rel_path: self.rel_path@,
            digest: self.sha256_digest@,
            mtime_secs: self.mtime_secs,
            mtime_nanos: self.mtime_nanos,
            len: self.len,
            last_seen: self.last_seen,
            fully_read: self.fully_read,
        }
    }
}

/// A record that a line can hold: a non-empty path without a leading slash,
/// a 32-byte digest, and nanoseconds below one second.
pub open spec fn representable(m: FileInfoView) -> bool {
    &&& m.rel_path.len() > 0
    &&& m.rel_path[0] != '/'
    &&& m.digest.len() == 32
    &&& m.mtime_nanos < 1_000_000_000
}

/// The line of a record, without its terminator.
pub open spec fn encode_line(m: FileInfoView) -> Seq<char> {
    hex_of(m.digest) + " "@ + m.rel_path + " # mtime "@ + dec_repr(m.mtime_secs as nat) + "."@
        + dec_padded(m.mtime_nanos as nat, 9) + " size "@ + dec_repr(m.len as nat)
        + " fully_read "@ + dec_repr(m.fully_read as nat) + " last_seen "@ + dec_repr(
        m.last_seen as nat,
    )
}

/// The line of a record with its terminator.
pub open spec fn line_of(m: FileInfoView) -> Seq<char> {
    encode_line(m).push('\n')
}

/// The end of an optional fractional part (`.` and digits) at `i`.
pub open spec fn frac_end(s: Seq<char>, i: int) -> int {
    if 0 <= i < s.len() && s[i] == '.' && digits_end(s, i + 1) > i + 1 {
        digits_end(s, i + 1)
    } else {
        i
    }
}

/// The integer field that starts at `i`: one or more digits whose value fits a `u64`.
pub open spec fn field_at(s: Seq<char>, i: int) -> Option<u64> {
    let e = digits_end(s, i);
    if e > i && dec_value(s.subrange(i, e)) <= u64::MAX {
        Some(dec_value(s.subrange(i, e)) as u64)
    } else {
        None
    }
}

/// The record a line without terminator holds, if it follows the grammar.
/// The path runs up to the last `#`: nothing after it holds one.
pub open spec fn decode_body(s: Seq<char>) -> Option<FileInfoView> {
    let k = last_index_of(s, '#', s.len() as int);
    let b1 = k + 8;
    let e1 = digits_end(s, b1);
    let e2 = digits_end(s, e1 + 1);
    let b3 = e2 + 6;
    let e3 = digits_end(s, b3);
    let b4 = e3 + 12;
    let e4 = digits_end(s, b4);
    let f4 = frac_end(s, e4);
    let b5 = f4 + 11;
    let e5 = digits_end(s, b5);
    if s.len() > 65 && all_hex_lower(s.subrange(0, 64)) && s[64] == ' ' && k >= 67 && s[65]
        != '/' && lit_at(s, k - 1, " # mtime "@) && field_at(s, b1) is Some && lit_at(s, e1, "."@)
        && e2 == e1 + 10 && lit_at(s, e2, " size "@) && field_at(s, b3) is Some && lit_at(
        s,
        e3,
        " fully_read "@,
    ) && field_at(s, b4) is Some && lit_at(s, f4, " last_seen "@) && field_at(s, b5) is Some
        && frac_end(s, e5) == s.len() {
        Some(
            FileInfoView {
                rel_path: s.subrange(65, k - 1),
                digest: bytes_of_hex(s.subrange(0, 64)),
                mtime_secs: field_at(s, b1)->Some_0,
                mtime_nanos: dec_value(s.subrange(e1 + 1, e2)) as u32,
                len: field_at(s, b3)->Some_0,
                last_seen: field_at(s, b5)->Some_0,
                fully_read: field_at(s, b4)->Some_0,
            },
        )
    } else {
        None
    }
}

/// The record a line holds; one trailing newline is no part of the grammar.
pub open spec fn decode_line(s: Seq<char>) -> Option<FileInfoView> {
    if s.len() > 0 && s.last() == '\n' {
        decode_body(s.drop_last())
    } else {
        decode_body(s)
    }
}

/// A line that does not follow the grammar; it carries the line.
#[derive(Debug, Clone, PartialEq, Eq)]
pub struct ParseError {
    pub line: String,
}

impl FileInfo {
    /// Reads a record from its line.
    pub fn parse(line: &str) -> (r: Result<FileInfo, ParseError>)
        ensures
            match r {
                Ok(fi) => decode_line(line@) == Some(fi@),
                Err(e) => decode_line(line@) is None && e.line@ == line@,
            },
    {
        let mut s = chars_of(line);
        if s.len() > 0 && s[s.len() - 1] == '\n' {
            s.pop();
        }
        assert(s@ == (if line@.len() > 0 && line@.last() == '\n' {
            line@.drop_last()
        } else {
            line@
        }));
        match parse_body(&s) {
            Some(fi) => Ok(fi),
            None => Err(ParseError { line: line.to_owned() }),
        }
    }

    /// Writes the record's line, with its terminator.
    pub fn write(&self) -> (r: String)
        ensures
            r@ == line_of(self@),
    {
        let mut out = hex_encode(&self.sha256_digest);
        push_str(&mut out, " ");
        push_str(&mut out, self.rel_path.as_str());
        push_str(&mut out, " # mtime ");
        push_decimal(&mut out, self.mtime_secs);
        push_str(&mut out, ".");
        push_decimal_padded(&mut out, self.mtime_nanos as u64, 9);
        push_str(&mut out, " size ");
        push_decimal(&mut out, self.len);
        push_str(&mut out, " fully_read ");
        push_decimal(&mut out, self.fully_read);
        push_str(&mut out, " last_seen ");
        push_decimal(&mut out, self.last_seen);
        push_char(&mut out, '\n');
        out
    }

    pub open spec fn needs_reading_spec(self, mtime_secs: u64, mtime_nanos: u32, len: u64) -> bool {
        self.mtime_secs != mtime_secs || self.mtime_nanos != mtime_nanos || self.len != len
    }

    /// A record with the same contents.
    pub fn duplicate(&self) -> (r: FileInfo)
        ensures
            r@ == self@,
    {
        FileInfo {
            rel_path: self.rel_path.clone(),
            sha256_digest: self.sha256_digest,
            mtime_secs: self.mtime_secs,
            mtime_nanos: self.mtime_nanos,
            len: self.len,
            last_seen: self.last_seen,
            fully_read: self.fully_read,
        }
    }

    /// Whether the file's current size or modification time differs from the record.
    pub fn needs_reading(&self, mtime_secs: u64, mtime_nanos: u32, len: u64) -> (r: bool)
        ensures
            r == self.needs_reading_spec(mtime_secs, mtime_nanos, len),
    {
        self.mtime_secs != mtime_secs || self.mtime_nanos != mtime_nanos || self.len != len
    }
}

/// The end of an optional fractional part at `i`.
fn scan_frac(s: &Vec<char>, i: usize) -> (e: usize)
    requires
        i <= s@.len(),
    ensures
        e as int == frac_end(s@, i as int),
        i <= e <= s@.len(),
{
    if i < s.len() && s[i] == '.' {
        let e = scan_digits(s, i + 1);
        proof {
            lemma_digits_end_bounds(s@, i + 1);
        }
        if e > i + 1 {
            return e;
        }
    }
    i
}

/// The integer field at `i`.
fn field(s: &Vec<char>, i: usize) -> (r: (usize, Option<u64>))
    requires
        i <= s@.len(),
    ensures
        r.0 as int == digits_end(s@, i as int),
        r.0 <= s@.len(),
        r.1 == field_at(s@, i as int),
{
    let e = scan_digits(s, i);
    proof {
        lemma_digits_end_bounds(s@, i as int);
    }
    if e == i {
        return (e, None);
    }
    (e, parse_u64(s, i, e))
}

/// Decodes a line without its terminator.
fn parse_body(s: &Vec<char>) -> (r: Option<FileInfo>)
    ensures
        match r {
            Some(fi) => decode_body(s@) == Some(fi@),
            None => decode_body(s@) is None,
        },
{
    let ghost g = s@;
    if s.len() <= 65 || s[64] != ' ' || s[65] == '/' {
        return None;
    }
    let mut hex = String::new();
    let mut i: usize = 0;
    while i < 64
        invariant
            i <= 64 < s@.len(),
            hex@ == s@.subrange(0, i as int),
            forall|j: int| 0 <= j < i ==> is_hex_lower(#[trigger] s@[j]),
        decreases 64 - i,
    {
        let c = s[i];
        if !(('0' <= c && c <= '9') || ('a' <= c && c <= 'f')) {
            assert(s@.subrange(0, 64)[i as int] == c);
            return None;
        }
        push_char(&mut hex, c);
        i = i + 1;
        assert(hex@ =~= s@.subrange(0, i as int));
    }
    assert(all_hex_lower(s@.subrange(0, 64)));
    let k = match find_last(s, '#') {
        Some(k) => k,
        None => {
            return None;
        },
    };
    if k < 67 || !has_lit_at(s, k - 1, " # mtime ") {
        return None;
    }
    proof {
        reveal_strlit(" # mtime ");
    }
    let b1 = k + 8;
    let (e1, mtime_secs) = field(s, b1);
    if !has_lit_at(s, e1, ".") {
        return None;
    }
    proof {
        reveal_strlit(".");
    }
    let e2 = scan_digits(s, e1 + 1);
    proof {
        lemma_digits_end_bounds(s@, e1 + 1);
    }
    if e2 - e1 != 10 || !has_lit_at(s, e2, " size ") {
        return None;
    }
    proof {
        reveal_strlit(" size ");
    }
    let b3 = e2 + 6;
    let (e3, len) = field(s, b3);
    if !has_lit_at(s, e3, " fully_read ") {
        return None;
    }
    proof {
        reveal_strlit(" fully_read ");
    }
    let b4 = e3 + 12;
    let (e4, fully_read) = field(s, b4);
    let f4 = scan_frac(s, e4);
    if !has_lit_at(s, f4, " last_seen ") {
        return None;
    }
    proof {
        reveal_strlit(" last_seen ");
    }
    let b5 = f4 + 11;
    let (e5, last_seen) = field(s, b5);
    let f5 = scan_frac(s, e5);
    if f5 != s.len() {
        return None;
    }
    let (mtime_secs, len, fully_read, last_seen) = match (mtime_secs, len, fully_read, last_seen) {
        (Some(a), Some(b), Some(c), Some(d)) => (a, b, c, d),
        _ => {
            return None;
        },
    };
    proof {
        assert(s@.subrange(e1 + 1, e2 as int).len() == 9);
        lemma_nine_digits_bound(s@.subrange(e1 + 1, e2 as int));
    }
    let nanos = match parse_u64(s, e1 + 1, e2) {
        Some(n) => n,
        None => {
            return None;
        },
    };
    assert(nanos < 1_000_000_000);
    let sha256_digest = match hex_decode(hex.as_str()) {
        Ok(d) => d,
        Err(_) => {
            return None;
        },
    };
    let mut rel_path = String::new();
    let mut j: usize = 65;
    while j < k - 1
        invariant
            65 <= j <= k - 1,
            k < s@.len(),
            rel_path@ == s@.subrange(65, j as int),
        decreases k - 1 - j,
    {
        push_char(&mut rel_path, s[j]);
        j = j + 1;
        assert(rel_path@ =~= s@.subrange(65, j as int));
    }
    let fi = FileInfo {
        rel_path,
        sha256_digest,
        mtime_secs,
        mtime_nanos: nanos as u32,
        len,
        last_seen,
        fully_read,
    };
    Some(fi)
}

/// Nine digits stand for a number below one second in nanoseconds.
proof fn lemma_nine_digits_bound(d: Seq<char>)
    requires
        d.len() == 9,
        all_digits(d),
    ensures
        dec_value(d) < 1_000_000_000,
{
    lemma_dec_value_below(d);
    reveal_with_fuel(pow10, 10);
    assert(pow10(9) == 1_000_000_000);
}

/// A digit is no `#`.
proof fn lemma_digits_free_of_hash(d: Seq<char>)
    requires
        all_digits(d),
    ensures
        forall|i: int| 0 <= i < d.len() ==> d[i] != '#',
{
    assert forall|i: int| 0 <= i < d.len() implies d[i] != '#' by {
        assert(is_digit(d[i]));
    }
}

/// `piece` stands in `s` from position `a` on.
proof fn lemma_piece_chars(s: Seq<char>, a: int, piece: Seq<char>)
    requires
        lit_at(s, a, piece),
    ensures
        forall|j: int| a <= j < a + piece.len() ==> s[j] == piece[j - a],
{
    assert forall|j: int| a <= j < a + piece.len() implies s[j] == piece[j - a] by {
        assert(s.subrange(a, a + piece.len())[j - a] == s[j]);
    }
}

/// `x` begins `s`: any stretch inside `x` reads the same in `s`.
proof fn lemma_in_prefix(s: Seq<char>, x: Seq<char>, i: int, j: int)
    requires
        x.len() <= s.len(),
        s.subrange(0, x.len() as int) == x,
        0 <= i <= j <= x.len(),
    ensures
        s.subrange(i, j) == x.subrange(i, j),
{
    assert(s.subrange(i, j) =~= s.subrange(0, x.len() as int).subrange(i, j));
}

/// The two parts of a concatenation.
proof fn lemma_concat(a: Seq<char>, b: Seq<char>)
    ensures
        (a + b).subrange(0, a.len() as int) == a,
        (a + b).subrange(a.len() as int, (a.len() + b.len()) as int) == b,
{
    assert((a + b).subrange(0, a.len() as int) =~= a);
    assert((a + b).subrange(a.len() as int, (a.len() + b.len()) as int) =~= b);
}

/// Where each part of the line of `m` stands in `s`.
pub open spec fn line_parts(s: Seq<char>, m: FileInfoView) -> bool {
    let d1 = dec_repr(m.mtime_secs as nat);
    let nn = dec_padded(m.mtime_nanos as nat, 9);
    let d2 = dec_repr(m.len as nat);
    let d3 = dec_repr(m.fully_read as nat);
    let d4 = dec_repr(m.last_seen as nat);
    let k = 66 + m.rel_path.len() as int;
    let b1 = k + 8;
    let e1 = b1 + d1.len();
    let e2 = e1 + 10;
    let b3 = e2 + 6;
    let e3 = b3 + d2.len();
    let b4 = e3 + 12;
    let e4 = b4 + d3.len();
    let b5 = e4 + 11;
    let e5 = b5 + d4.len();
    &&& s.len() == e5
    &&& s.subrange(0, 64) == hex_of(m.digest)
    &&& s.subrange(64, 65) == " "@
    &&& s.subrange(65, k - 1) == m.rel_path
    &&& s.subrange(k - 1, b1) == " # mtime "@
    &&& s.subrange(b1, e1) == d1
    &&& s.subrange(e1, e1 + 1) == "."@
    &&& s.subrange(e1 + 1, e2) == nn
    &&& s.subrange(e2, b3) == " size "@
    &&& s.subrange(b3, e3) == d2
    &&& s.subrange(e3, b4) == " fully_read "@
    &&& s.subrange(b4, e4) == d3
    &&& s.subrange(e4, b5) == " last_seen "@
    &&& s.subrange(b5, e5) == d4
}

/// Where each part of a record's line stands.
proof fn lemma_line_pieces(m: FileInfoView)
    requires
        representable(m),
    ensures
        line_parts(encode_line(m), m),
{
    reveal_strlit(" ");
    reveal_strlit(" # mtime ");
    reveal_strlit(".");
    reveal_strlit(" size ");
    reveal_strlit(" fully_read ");
    reveal_strlit(" last_seen ");
    lemma_hex_round_trip(m.digest);
    lemma_dec_padded(m.mtime_nanos as nat, 9);
    let s = encode_line(m);
    let q0 = hex_of(m.digest);
    let q1 = q0 + " "@;
    let q2 = q1 + m.rel_path;
    let q3 = q2 + " # mtime "@;
    let q4 = q3 + dec_repr(m.mtime_secs as nat);
    let q5 = q4 + "."@;
    let q6 = q5 + dec_padded(m.mtime_nanos as nat, 9);
    let q7 = q6 + " size "@;
    let q8 = q7 + dec_repr(m.len as nat);
    let q9 = q8 + " fully_read "@;
    let q10 = q9 + dec_repr(m.fully_read as nat);
    let q11 = q10 + " last_seen "@;
    assert(s == q11 + dec_repr(m.last_seen as nat));
    lemma_concat(q0, " "@);
    lemma_concat(q1, m.rel_path);
    lemma_concat(q2, " # mtime "@);
    lemma_concat(q3, dec_repr(m.mtime_secs as nat));
    lemma_concat(q4, "."@);
    lemma_concat(q5, dec_padded(m.mtime_nanos as nat, 9));
    lemma_concat(q6, " size "@);
    lemma_concat(q7, dec_repr(m.len as nat));
    lemma_concat(q8, " fully_read "@);
    lemma_concat(q9, dec_repr(m.fully_read as nat));
    lemma_concat(q10, " last_seen "@);
    lemma_concat(q11, dec_repr(m.last_seen as nat));
    // every prefix begins the whole line
    lemma_in_prefix(s, q11, 0, q10.len() as int);
    lemma_in_prefix(s, q10, 0, q9.len() as int);
    lemma_in_prefix(s, q9, 0, q8.len() as int);
    lemma_in_prefix(s, q8, 0, q7.len() as int);
    lemma_in_prefix(s, q7, 0, q6.len() as int);
    lemma_in_prefix(s, q6, 0, q5.len() as int);
    lemma_in_prefix(s, q5, 0, q4.len() as int);
    lemma_in_prefix(s, q4, 0, q3.len() as int);
    lemma_in_prefix(s, q3, 0, q2.len() as int);
    lemma_in_prefix(s, q2, 0, q1.len() as int);
    lemma_in_prefix(s, q1, 0, q0.len() as int);
    lemma_in_prefix(s, q1, q0.len() as int, q1.len() as int);
    lemma_in_prefix(s, q2, q1.len() as int, q2.len() as int);
    lemma_in_prefix(s, q3, q2.len() as int, q3.len() as int);
    lemma_in_prefix(s, q4, q3.len() as int, q4.len() as int);
    lemma_in_prefix(s, q5, q4.len() as int, q5.len() as int);
    lemma_in_prefix(s, q6, q5.len() as int, q6.len() as int);
    lemma_in_prefix(s, q7, q6.len() as int, q7.len() as int);
    lemma_in_prefix(s, q8, q7.len() as int, q8.len() as int);
    lemma_in_prefix(s, q9, q8.len() as int, q9.len() as int);
    lemma_in_prefix(s, q10, q9.len() as int, q10.len() as int);
    lemma_in_prefix(s, q11, q10.len() as int, q11.len() as int);
}

/// Reading the line that a representable record writes gives the record back.
pub proof fn lemma_round_trip(m: FileInfoView)
    requires
        representable(m),
    ensures
        decode_line(line_of(m)) == Some(m),
{
    let s = encode_line(m);
    assert(line_of(m).drop_last() =~= s);
    lemma_line_pieces(m);
    lemma_decode_parts(s, m);
}

/// After the `#` of ` # mtime ` the line of a record holds no `#`.
proof fn lemma_parts_last_hash(s: Seq<char>, m: FileInfoView)
    requires
        representable(m),
        line_parts(s, m),
    ensures
        last_index_of(s, '#', s.len() as int) == 66 + m.rel_path.len(),
{
    reveal_strlit(" # mtime ");
    reveal_strlit(".");
    reveal_strlit(" size ");
    reveal_strlit(" fully_read ");
    reveal_strlit(" last_seen ");
    let d1 = dec_repr(m.mtime_secs as nat);
    let nn = dec_padded(m.mtime_nanos as nat, 9);
    let d2 = dec_repr(m.len as nat);
    let d3 = dec_repr(m.fully_read as nat);
    let d4 = dec_repr(m.last_seen as nat);
    lemma_dec_repr(m.mtime_secs as nat);
    lemma_dec_padded(m.mtime_nanos as nat, 9);
    lemma_dec_repr(m.len as nat);
    lemma_dec_repr(m.fully_read as nat);
    lemma_dec_repr(m.last_seen as nat);
    lemma_digits_free_of_hash(d1);
    lemma_digits_free_of_hash(nn);
    lemma_digits_free_of_hash(d2);
    lemma_digits_free_of_hash(d3);
    lemma_digits_free_of_hash(d4);
    let k = 66 + m.rel_path.len() as int;
    let b1 = k + 8;
    let e1 = b1 + d1.len();
    let e2 = e1 + 10;
    let b3 = e2 + 6;
    let e3 = b3 + d2.len();
    let b4 = e3 + 12;
    let e4 = b4 + d3.len();
    let b5 = e4 + 11;
    lemma_piece_chars(s, k - 1, " # mtime "@);
    lemma_piece_chars(s, b1, d1);
    lemma_piece_chars(s, e1, "."@);
    lemma_piece_chars(s, e1 + 1, nn);
    lemma_piece_chars(s, e2, " size "@);
    lemma_piece_chars(s, b3, d2);
    lemma_piece_chars(s, e3, " fully_read "@);
    lemma_piece_chars(s, b4, d3);
    lemma_piece_chars(s, e4, " last_seen "@);
    lemma_piece_chars(s, b5, d4);
    assert forall|j: int| k < j < s.len() implies s[j] != '#' by {
        if j < b1 {
        } else if j < e1 {
            assert(s[j] == d1[j - b1]);
        } else if j == e1 {
        } else if j < e2 {
            assert(s[j] == nn[j - (e1 + 1)]);
        } else if j < b3 {
        } else if j < e3 {
            assert(s[j] == d2[j - b3]);
        } else if j < b4 {
        } else if j < e4 {
            assert(s[j] == d3[j - b4]);
        } else if j < b5 {
        } else {
            assert(s[j] == d4[j - b5]);
        }
    }
    lemma_last_index_of(s, '#', k, s.len() as int);
}

/// The numerals of the line of a record end where the next part begins.
proof fn lemma_parts_fields(s: Seq<char>, m: FileInfoView)
    requires
        representable(m),
        line_parts(s, m),
    ensures
        ({
            let k = 66 + m.rel_path.len() as int;
            let b1 = k + 8;
            let e1 = b1 + dec_repr(m.mtime_secs as nat).len();
            let e2 = e1 + 10;
            let b3 = e2 + 6;
            let e3 = b3 + dec_repr(m.len as nat).len();
            let b4 = e3 + 12;
            let e4 = b4 + dec_repr(m.fully_read as nat).len();
            let b5 = e4 + 11;
            &&& digits_end(s, b1) == e1
            &&& field_at(s, b1) == Some(m.mtime_secs)
            &&& digits_end(s, e1 + 1) == e2
            &&& dec_value(s.subrange(e1 + 1, e2)) == m.mtime_nanos
            &&& digits_end(s, b3) == e3
            &&& field_at(s, b3) == Some(m.len)
            &&& digits_end(s, b4) == e4
            &&& field_at(s, b4) == Some(m.fully_read)
            &&& frac_end(s, e4) == e4
            &&& digits_end(s, b5) == s.len()
            &&& field_at(s, b5) == Some(m.last_seen)
            &&& frac_end(s, s.len() as int) == s.len()
        }),
{
    reveal_strlit(".");
    reveal_strlit(" size ");
    reveal_strlit(" fully_read ");
    reveal_strlit(" last_seen ");
    let d1 = dec_repr(m.mtime_secs as nat);
    let nn = dec_padded(m.mtime_nanos as nat, 9);
    let d2 = dec_repr(m.len as nat);
    let d3 = dec_repr(m.fully_read as nat);
    let d4 = dec_repr(m.last_seen as nat);
    lemma_dec_repr(m.mtime_secs as nat);
    lemma_dec_padded(m.mtime_nanos as nat, 9);
    lemma_dec_repr(m.len as nat);
    lemma_dec_repr(m.fully_read as nat);
    lemma_dec_repr(m.last_seen as nat);
    let k = 66 + m.rel_path.len() as int;
    let b1 = k + 8;
    let e1 = b1 + d1.len();
    let e2 = e1 + 10;
    let b3 = e2 + 6;
    let e3 = b3 + d2.len();
    let b4 = e3 + 12;
    let e4 = b4 + d3.len();
    let b5 = e4 + 11;
    lemma_piece_chars(s, e1, "."@);
    lemma_piece_chars(s, e2, " size "@);
    lemma_piece_chars(s, e3, " fully_read "@);
    lemma_piece_chars(s, e4, " last_seen "@);
    lemma_digits_end(s, b1, e1);
    lemma_digits_end(s, e1 + 1, e2);
    lemma_digits_end(s, b3, e3);
    lemma_digits_end(s, b4, e4);
    lemma_digits_end(s, b5, s.len() as int);
    assert(m.mtime_nanos as nat % pow10(9) == m.mtime_nanos) by {
        reveal_with_fuel(pow10, 10);
        assert(pow10(9) == 1_000_000_000);
    }
}

/// A line whose parts are those of a representable record decodes to it.
proof fn lemma_decode_parts(s: Seq<char>, m: FileInfoView)
    requires
        representable(m),
        line_parts(s, m),
    ensures
        decode_body(s) == Some(m),
{
    reveal_strlit(" ");
    reveal_strlit(" # mtime ");
    reveal_strlit(".");
    reveal_strlit(" size ");
    reveal_strlit(" fully_read ");
    reveal_strlit(" last_seen ");
    lemma_hex_round_trip(m.digest);
    lemma_parts_last_hash(s, m);
    lemma_parts_fields(s, m);
    let k = 66 + m.rel_path.len() as int;
    assert(s[64] == s.subrange(64, 65)[0]);
    assert(s[65] == s.subrange(65, k - 1)[0]);
}

} // verus!
