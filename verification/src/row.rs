//! One line of an env file: a key/value declaration, a comment-only line, or
//! a blank line. The grammar is stated by spec functions over the raw bytes of
//! the line; `parse_line` is proved to classify and decompose every line
//! exactly as the grammar says, or to reject it with the matching error.

use vstd::prelude::*;
use crate::bytes::{
    ws_end, find_byte, rstrip_end, lemma_ws_end_bounds, lemma_find_byte_bounds,
    lemma_rstrip_bounds, scan_ws, scan_find, scan_rstrip, subvec, copy_bytes,
};

verus! {

pub const B_HASH: u8 = 35;
pub const B_SPACE: u8 = 32;
pub const B_EQ: u8 = 61;
pub const B_DQUOTE: u8 = 34;
pub const B_SQUOTE: u8 = 39;
pub const B_BACKSLASH: u8 = 92;
pub const B_NL: u8 = 10;

// --- Key grammar -----------------------------------------------------------

pub open spec fn is_key_start(b: u8) -> bool {
    (65 <= b <= 90) || (97 <= b <= 122) || b == 95
}

pub open spec fn is_key_byte(b: u8) -> bool {
    is_key_start(b) || (48 <= b <= 57)
}

/// A key is a non-empty identifier: a letter or underscore followed by
/// letters, digits and underscores.
pub open spec fn valid_key(k: Seq<u8>) -> bool {
    &&& k.len() > 0
    &&& is_key_start(k[0])
    &&& forall|i: int| 0 <= i < k.len() ==> is_key_byte(#[trigger] k[i])
}

// --- Line classification ---------------------------------------------------

/// A line that is empty or holds only whitespace.
pub open spec fn blank_line(l: Seq<u8>) -> bool {
    ws_end(l, 0) == l.len()
}

/// A line whose first non-whitespace byte is `#`.
pub open spec fn comment_line(l: Seq<u8>) -> bool {
    ws_end(l, 0) < l.len() && l[ws_end(l, 0)] == B_HASH
}

/// The text of a comment line: everything after the marker, with one leading
/// space stripped by convention.
pub open spec fn comment_text(l: Seq<u8>) -> Seq<u8> {
    let j = ws_end(l, 0) + 1;
    if j < l.len() && l[j] == B_SPACE {
        l.subrange(j + 1, l.len() as int)
    } else if j <= l.len() {
        l.subrange(j, l.len() as int)
    } else {
        Seq::empty()
    }
}

// --- Declaration grammar ---------------------------------------------------

pub open spec fn eq_pos(l: Seq<u8>) -> int {
    find_byte(l, 0, B_EQ)
}

/// The key: everything left of the first `=`, trimmed of whitespace.
pub open spec fn key_of(l: Seq<u8>) -> Seq<u8> {
    if ws_end(l, 0) < rstrip_end(l, eq_pos(l)) {
        l.subrange(ws_end(l, 0), rstrip_end(l, eq_pos(l)))
    } else {
        Seq::empty()
    }
}

/// First non-whitespace position after the `=`: where the value begins.
pub open spec fn val_start(l: Seq<u8>) -> int {
    ws_end(l, eq_pos(l) + 1)
}

/// Position of the closing double quote scanning from `i`, honouring
/// backslash escapes; `-1` if the quote never closes.
pub open spec fn dq_close(l: Seq<u8>, i: int) -> int
    decreases l.len() - i,
{
    if i < 0 || i >= l.len() {
        -1
    } else if l[i] == B_DQUOTE {
        i
    } else if l[i] == B_BACKSLASH {
        if i + 1 < l.len() {
            dq_close(l, i + 2)
        } else {
            -1
        }
    } else {
        dq_close(l, i + 1)
    }
}

/// The unescaped content of a double-quoted value starting at `i`.
pub open spec fn dq_content(l: Seq<u8>, i: int) -> Seq<u8>
    decreases l.len() - i,
{
    if i < 0 || i >= l.len() {
        Seq::empty()
    } else if l[i] == B_DQUOTE {
        Seq::empty()
    } else if l[i] == B_BACKSLASH {
        if i + 1 < l.len() {
            seq![l[i + 1]] + dq_content(l, i + 2)
        } else {
            Seq::empty()
        }
    } else {
        seq![l[i]] + dq_content(l, i + 1)
    }
}

/// After a closing quote only whitespace may follow, optionally then an
/// inline `#` comment running to the end of the line.
pub open spec fn tail_ok(l: Seq<u8>, i: int) -> bool {
    ws_end(l, i) == l.len() || l[ws_end(l, i)] == B_HASH
}

pub open spec fn unterminated_quote(l: Seq<u8>) -> bool {
    let j = val_start(l);
    if j < l.len() && l[j] == B_DQUOTE {
        dq_close(l, j + 1) < 0
    } else if j < l.len() && l[j] == B_SQUOTE {
        find_byte(l, j + 1, B_SQUOTE) == l.len()
    } else {
        false
    }
}

pub open spec fn value_ok(l: Seq<u8>) -> bool {
    let j = val_start(l);
    if j >= l.len() {
        true
    } else if l[j] == B_DQUOTE {
        dq_close(l, j + 1) >= 0 && tail_ok(l, dq_close(l, j + 1) + 1)
    } else if l[j] == B_SQUOTE {
        find_byte(l, j + 1, B_SQUOTE) < l.len() && tail_ok(l, find_byte(l, j + 1, B_SQUOTE) + 1)
    } else {
        true
    }
}

/// The value of a declaration line: empty, double-quoted (escapes resolved),
/// single-quoted (literal), or unquoted up to an inline `#` comment with
/// trailing whitespace stripped.
pub open spec fn value_of(l: Seq<u8>) -> Seq<u8> {
    let j = val_start(l);
    if j >= l.len() {
        Seq::empty()
    } else if l[j] == B_DQUOTE {
        dq_content(l, j + 1)
    } else if l[j] == B_SQUOTE {
        l.subrange(j + 1, find_byte(l, j + 1, B_SQUOTE))
    } else if l[j] == B_HASH {
        Seq::empty()
    } else {
        l.subrange(j, rstrip_end(l, find_byte(l, j, B_HASH)))
    }
}

/// Whether the line belongs to the language: blank, comment, or a
/// declaration with a valid key and a well-formed value.
pub open spec fn line_parses(l: Seq<u8>) -> bool {
    ||| blank_line(l)
    ||| comment_line(l)
    ||| (eq_pos(l) < l.len() && valid_key(key_of(l)) && value_ok(l))
}

// --- Models ----------------------------------------------------------------

/// The mathematical image of a parsed row.
pub enum RowModel {
    Decl { name: Seq<u8>, value: Seq<u8>, raw: Seq<u8> },
    Comment { text: Seq<u8>, raw: Seq<u8> },
    Blank { raw: Seq<u8> },
}

pub open spec fn raw_of(m: RowModel) -> Seq<u8> {
    match m {
        RowModel::Decl { raw, .. } => raw,
        RowModel::Comment { raw, .. } => raw,
        RowModel::Blank { raw } => raw,
    }
}

/// What parsing a given line must produce.
pub open spec fn row_model_of(l: Seq<u8>) -> RowModel {
    if blank_line(l) {
        RowModel::Blank { raw: l }
    } else if comment_line(l) {
        RowModel::Comment { text: comment_text(l), raw: l }
    } else {
        RowModel::Decl { name: key_of(l), value: value_of(l), raw: l }
    }
}

/// The mathematical image of a parse error.
pub enum ErrModel {
    MissingEquals { line: Seq<u8> },
    InvalidKey { line: Seq<u8> },
    UnterminatedQuote { line: Seq<u8> },
    TrailingChars { line: Seq<u8> },
}

/// Which error a rejected line must report.
pub open spec fn err_model_of(l: Seq<u8>) -> ErrModel {
    if eq_pos(l) >= l.len() {
        ErrModel::MissingEquals { line: l }
    } else if !valid_key(key_of(l)) {
        ErrModel::InvalidKey { line: l }
    } else if unterminated_quote(l) {
        ErrModel::UnterminatedQuote { line: l }
    } else {
        ErrModel::TrailingChars { line: l }
    }
}

// --- Executable types ------------------------------------------------------

/// A parsed `KEY=value` line. `raw` keeps the original bytes so the line can
/// be re-emitted unchanged while its value is untouched.
pub struct Declaration {
    pub name: Vec<u8>,
    pub value: Vec<u8>,
    pub raw: Vec<u8>,
}

/// A line that is entirely a comment; `text` excludes the `#` marker.
pub struct CommentRow {
    pub text: Vec<u8>,
    pub raw: Vec<u8>,
}

/// An empty or whitespace-only line.
pub struct BlankRow {
    pub raw: Vec<u8>,
}

/// The three kinds of line an env file decomposes into.
pub enum EnvFileRow {
    Declaration(Declaration),
    CommentOnly(CommentRow),
    Empty(BlankRow),
}

impl View for EnvFileRow {
    type V = RowModel;

    open spec fn view(&self) -> RowModel {
        match self {
            EnvFileRow::Declaration(d) => RowModel::Decl { name: d.name@, value: d.value@, raw: d.raw@ },
            EnvFileRow::CommentOnly(c) => RowModel::Comment { text: c.text@, raw: c.raw@ },
            EnvFileRow::Empty(b) => RowModel::Blank { raw: b.raw@ },
        }
    }
}

/// A syntax violation; each variant carries the offending line.
pub enum ParseError {
    MissingEquals(Vec<u8>),
    InvalidKey(Vec<u8>),
    UnterminatedQuote(Vec<u8>),
    TrailingChars(Vec<u8>),
}

impl View for ParseError {
    type V = ErrModel;

    open spec fn view(&self) -> ErrModel {
        match self {
            ParseError::MissingEquals(l) => ErrModel::MissingEquals { line: l@ },
            ParseError::InvalidKey(l) => ErrModel::InvalidKey { line: l@ },
            ParseError::UnterminatedQuote(l) => ErrModel::UnterminatedQuote { line: l@ },
            ParseError::TrailingChars(l) => ErrModel::TrailingChars { line: l@ },
        }
    }
}

impl ParseError {
    /// The offending line, for diagnostics.
    pub fn line(&self) -> (r: &Vec<u8>)
        ensures
            r@ == match self@ {
                ErrModel::MissingEquals { line } => line,
                ErrModel::InvalidKey { line } => line,
                ErrModel::UnterminatedQuote { line } => line,
                ErrModel::TrailingChars { line } => line,
            },
    {
        match self {
            ParseError::MissingEquals(l) => l,
            ParseError::InvalidKey(l) => l,
            ParseError::UnterminatedQuote(l) => l,
            ParseError::TrailingChars(l) => l,
        }
    }
}

// --- The line parser -------------------------------------------------------

/// Parses one line (no `\n` inside) into a row, or rejects it with the error
/// the grammar prescribes.
#[verifier::loop_isolation(false)]
pub fn parse_line(line: &Vec<u8>) -> (r: Result<EnvFileRow, ParseError>)
    ensures
        (r is Ok) == line_parses(line@),
        r matches Ok(row) ==> row@ == row_model_of(line@),
        r matches Err(e) ==> e@ == err_model_of(line@),
{
    let n = line.len();
    let j0 = scan_ws(line, 0);
    if j0 == n {
        return Ok(EnvFileRow::Empty(BlankRow { raw: copy_bytes(line) }));
    }
    if line[j0] == B_HASH {
        let mut start = j0 + 1;
        if start < n && line[start] == B_SPACE {
            start = start + 1;
        }
        let text = subvec(line, start, n);
        return Ok(EnvFileRow::CommentOnly(CommentRow { text, raw: copy_bytes(line) }));
    }
    // Not blank, not a comment: must be a declaration.
    let e = scan_find(line, 0, B_EQ);
    if e == n {
        assert(!line_parses(line@));
        return Err(ParseError::MissingEquals(copy_bytes(line)));
    }
    let ke = scan_rstrip(line, e);
    if ke <= j0 {
        assert(key_of(line@) == Seq::<u8>::empty());
        assert(!valid_key(key_of(line@)));
        return Err(ParseError::InvalidKey(copy_bytes(line)));
    }
    let key = subvec(line, j0, ke);
    assert(key@ == key_of(line@));
    if !key_start_byte(key[0]) {
        assert(!valid_key(key_of(line@)));
        return Err(ParseError::InvalidKey(copy_bytes(line)));
    }
    let mut ki: usize = 0;
    while ki < key.len()
        invariant
            ki <= key@.len(),
            key@.len() > 0,
            is_key_start(key@[0]),
            key@ == key_of(line@),
            forall|t: int| 0 <= t < ki ==> is_key_byte(#[trigger] key@[t]),
        decreases key@.len() - ki,
    {
        if !key_byte(key[ki]) {
            assert(!valid_key(key_of(line@)));
            return Err(ParseError::InvalidKey(copy_bytes(line)));
        }
        ki = ki + 1;
    }
    assert(valid_key(key_of(line@)));
    // Value.
    let j = scan_ws(line, e + 1);
    let value: Vec<u8>;
    if j == n {
        value = Vec::new();
        assert(value@ == value_of(line@));
    } else if line[j] == B_DQUOTE {
        let mut i = j + 1;
        let mut val: Vec<u8> = Vec::new();
        while i < n && line[i] != B_DQUOTE
            invariant
                j + 1 <= i <= n,
                n == line@.len(),
                dq_close(line@, (j + 1) as int) == dq_close(line@, i as int),
                dq_content(line@, (j + 1) as int) == val@ + dq_content(line@, i as int),
            decreases n - i,
        {
            if line[i] == B_BACKSLASH {
                if i + 1 < n {
                    val.push(line[i + 1]);
                    assert(dq_content(line@, i as int)
                        == seq![line@[i + 1]] + dq_content(line@, (i + 2) as int));
                    i = i + 2;
                } else {
                    assert(dq_close(line@, i as int) == -1);
                    assert(unterminated_quote(line@));
                    assert(!line_parses(line@));
                    return Err(ParseError::UnterminatedQuote(copy_bytes(line)));
                }
            } else {
                val.push(line[i]);
                assert(dq_content(line@, i as int)
                    == seq![line@[i as int]] + dq_content(line@, (i + 1) as int));
                i = i + 1;
            }
        }
        if i == n {
            assert(dq_close(line@, i as int) == -1);
            assert(unterminated_quote(line@));
            assert(!line_parses(line@));
            return Err(ParseError::UnterminatedQuote(copy_bytes(line)));
        }
        // Closing quote found at i.
        assert(dq_close(line@, i as int) == i);
        assert(dq_content(line@, i as int) == Seq::<u8>::empty());
        assert(val@ == dq_content(line@, (j + 1) as int));
        let t = scan_ws(line, i + 1);
        if t < n && line[t] != B_HASH {
            assert(!tail_ok(line@, (i + 1) as int));
            assert(!value_ok(line@));
            assert(!unterminated_quote(line@));
            assert(!line_parses(line@));
            return Err(ParseError::TrailingChars(copy_bytes(line)));
        }
        assert(tail_ok(line@, (i + 1) as int));
        value = val;
        assert(value@ == value_of(line@));
    } else if line[j] == B_SQUOTE {
        let q = scan_find(line, j + 1, B_SQUOTE);
        if q == n {
            assert(unterminated_quote(line@));
            assert(!line_parses(line@));
            return Err(ParseError::UnterminatedQuote(copy_bytes(line)));
        }
        let t = scan_ws(line, q + 1);
        if t < n && line[t] != B_HASH {
            assert(!tail_ok(line@, (q + 1) as int));
            assert(!value_ok(line@));
            assert(!unterminated_quote(line@));
            assert(!line_parses(line@));
            return Err(ParseError::TrailingChars(copy_bytes(line)));
        }
        value = subvec(line, j + 1, q);
        assert(value@ == value_of(line@));
    } else if line[j] == B_HASH {
        value = Vec::new();
        assert(value@ == value_of(line@));
    } else {
        let h = scan_find(line, j, B_HASH);
        let ve = scan_rstrip(line, h);
        proof {
            lemma_ws_end_bounds(line@, (e + 1) as int);
            lemma_rstrip_bounds(line@, j as int, h as int);
        }
        value = subvec(line, j, ve);
        assert(value@ == value_of(line@));
    }
    assert(value_ok(line@));
    assert(line_parses(line@));
    let row = EnvFileRow::Declaration(Declaration {
        name: key,
        value,
        raw: copy_bytes(line),
    });
    assert(row@ == row_model_of(line@));
    Ok(row)
}

fn key_start_byte(b: u8) -> (r: bool)
    ensures
        r == is_key_start(b),
{
    (65 <= b && b <= 90) || (97 <= b && b <= 122) || b == 95
}

fn key_byte(b: u8) -> (r: bool)
    ensures
        r == is_key_byte(b),
{
    key_start_byte(b) || (48 <= b && b <= 57)
}

} // verus!
