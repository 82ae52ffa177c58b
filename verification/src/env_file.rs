//! The structured env document: an ordered sequence of rows parsed from
//! text and re-serializable to text. Parsing is all-or-nothing; rendering a
//! freshly parsed document reproduces the input byte for byte; `apply`
//! re-renders with values substituted from a mapping while untouched rows
//! keep their exact original bytes.

use vstd::prelude::*;
use crate::bytes::{find_byte, lemma_find_byte_bounds, scan_find, subvec, push_bytes, copy_bytes, bytes_eq};
use crate::row::{
    EnvFileRow, RowModel, Declaration, ParseError, raw_of, row_model_of, line_parses,
    err_model_of, blank_line, parse_line, B_NL, B_EQ,
};
use crate::env_map::{
    EnvMap, distinct_keys, map_of, merge_seq, insert_pair,
};

verus! {

// --- Document-level specifications -----------------------------------------

/// The models of a row vector.
pub open spec fn models_of(rows: Seq<EnvFileRow>) -> Seq<RowModel> {
    rows.map_values(|row: EnvFileRow| row@)
}

/// Every line followed by a newline.
pub open spec fn cat_nl(raws: Seq<Seq<u8>>) -> Seq<u8>
    decreases raws.len(),
{
    if raws.len() == 0 {
        Seq::empty()
    } else {
        cat_nl(raws.drop_last()) + raws.last() + seq![B_NL]
    }
}

/// The text a document denotes: lines joined by newlines, with a trailing
/// newline only when the parsed text had one.
pub open spec fn render_spec(raws: Seq<Seq<u8>>, final_nl: bool) -> Seq<u8> {
    if raws.len() == 0 {
        Seq::empty()
    } else if final_nl {
        cat_nl(raws)
    } else {
        cat_nl(raws.drop_last()) + raws.last()
    }
}

/// The segments of `t` from `i` on, split at each newline.
pub open spec fn nl_split(t: Seq<u8>, i: int) -> Seq<Seq<u8>>
    decreases t.len() - i,
        via nl_split_decreases
{
    if i < 0 || i > t.len() {
        Seq::empty()
    } else {
        let p = find_byte(t, i, B_NL);
        if p == t.len() {
            seq![t.subrange(i, p)]
        } else {
            seq![t.subrange(i, p)] + nl_split(t, p + 1)
        }
    }
}

#[via_fn]
proof fn nl_split_decreases(t: Seq<u8>, i: int) {
    if !(i < 0 || i > t.len()) {
        lemma_find_byte_bounds(t, i, B_NL);
    }
}

/// The lines of a document: a trailing newline terminates the last line
/// rather than opening an empty one.
pub open spec fn doc_lines(t: Seq<u8>) -> Seq<Seq<u8>> {
    if t.len() == 0 {
        Seq::empty()
    } else if t.last() == B_NL {
        nl_split(t, 0).drop_last()
    } else {
        nl_split(t, 0)
    }
}

pub open spec fn doc_final_nl(t: Seq<u8>) -> bool {
    t.len() > 0 && t.last() == B_NL
}

pub open spec fn all_lines_parse(t: Seq<u8>) -> bool {
    forall|i: int| 0 <= i < doc_lines(t).len() ==> line_parses(#[trigger] doc_lines(t)[i])
}

/// The key/value pairs a row sequence folds to, left to right, later
/// declarations replacing earlier values in place.
pub open spec fn env_seq(ms: Seq<RowModel>) -> Seq<(Seq<u8>, Seq<u8>)>
    decreases ms.len(),
{
    if ms.len() == 0 {
        Seq::empty()
    } else {
        let rest = env_seq(ms.drop_last());
        match ms.last() {
            RowModel::Decl { name, value, .. } => insert_pair(rest, (name, value)),
            _ => rest,
        }
    }
}

/// The mapping view of a row sequence: last declaration of a key wins.
pub open spec fn rows_env(ms: Seq<RowModel>) -> Map<Seq<u8>, Seq<u8>> {
    map_of(env_seq(ms))
}

/// The default rendering of a declaration that has no original line to
/// preserve: unquoted, no inline comment.
pub open spec fn default_raw(name: Seq<u8>, value: Seq<u8>) -> Seq<u8> {
    name + seq![B_EQ] + value
}

/// One row after substitution from the mapping `e`: a declaration whose key
/// maps to a different value is re-rendered with the default formatting; any
/// other row keeps its original bytes.
pub open spec fn subst_model(m: RowModel, e: Map<Seq<u8>, Seq<u8>>) -> RowModel {
    match m {
        RowModel::Decl { name, value, raw } => {
            if e.contains_key(name) && e[name] != value {
                RowModel::Decl { name, value: e[name], raw: default_raw(name, e[name]) }
            } else {
                m
            }
        }
        _ => m,
    }
}

/// The keys declared anywhere in a row sequence.
pub open spec fn decl_names(ms: Seq<RowModel>) -> Set<Seq<u8>>
    decreases ms.len(),
{
    if ms.len() == 0 {
        Set::empty()
    } else {
        match ms.last() {
            RowModel::Decl { name, .. } => decl_names(ms.drop_last()).insert(name),
            _ => decl_names(ms.drop_last()),
        }
    }
}

pub open spec fn is_decl_named(m: RowModel, k: Seq<u8>) -> bool {
    m matches RowModel::Decl { name, .. } && name == k
}

pub proof fn lemma_decl_names(ms: Seq<RowModel>)
    ensures
        forall|k: Seq<u8>| decl_names(ms).contains(k)
            <==> exists|i: int| 0 <= i < ms.len() && is_decl_named(#[trigger] ms[i], k),
    decreases ms.len(),
{
    if ms.len() > 0 {
        let m0 = ms.drop_last();
        lemma_decl_names(m0);
        assert forall|k: Seq<u8>| decl_names(ms).contains(k)
            implies exists|i: int| 0 <= i < ms.len() && is_decl_named(#[trigger] ms[i], k) by {
            if is_decl_named(ms.last(), k) {
                assert(is_decl_named(ms[ms.len() - 1], k));
            } else {
                assert(decl_names(m0).contains(k));
                let i = choose|i: int| 0 <= i < m0.len() && is_decl_named(#[trigger] m0[i], k);
                assert(ms[i] == m0[i]);
            }
        }
        assert forall|k: Seq<u8>|
            (exists|i: int| 0 <= i < ms.len() && is_decl_named(#[trigger] ms[i], k))
            implies decl_names(ms).contains(k) by {
            let i = choose|i: int| 0 <= i < ms.len() && is_decl_named(#[trigger] ms[i], k);
            if i < ms.len() - 1 {
                assert(m0[i] == ms[i]);
                assert(decl_names(m0).contains(k));
            }
        }
    }
}

/// The pairs of `s` whose key is not in `names`, in order.
pub open spec fn fresh_pairs(s: Seq<(Seq<u8>, Seq<u8>)>, names: Set<Seq<u8>>) -> Seq<(Seq<u8>, Seq<u8>)>
    decreases s.len(),
{
    if s.len() == 0 {
        s
    } else if names.contains(s.last().0) {
        fresh_pairs(s.drop_last(), names)
    } else {
        fresh_pairs(s.drop_last(), names).push(s.last())
    }
}

/// New declaration rows for appended pairs, rendered with the default
/// formatting.
pub open spec fn appended_models(ps: Seq<(Seq<u8>, Seq<u8>)>) -> Seq<RowModel> {
    ps.map_values(|p: (Seq<u8>, Seq<u8>)| RowModel::Decl {
        name: p.0,
        value: p.1,
        raw: default_raw(p.0, p.1),
    })
}

// --- The document -----------------------------------------------------------

/// A parsed env file: the rows in document order, whether the text ended
/// with a newline, and the working mapping seeded from the rows at parse
/// time and updated by `apply_assign`.
pub struct EnvFile {
    pub rows: Vec<EnvFileRow>,
    pub final_newline: bool,
    pub assign: EnvMap,
}

impl EnvFile {
    pub open spec fn models(self) -> Seq<RowModel> {
        models_of(self.rows@)
    }

    pub open spec fn raws(self) -> Seq<Seq<u8>> {
        self.models().map_values(|m: RowModel| raw_of(m))
    }

    /// The exact text this document renders to.
    pub open spec fn text_view(self) -> Seq<u8> {
        render_spec(self.raws(), self.final_newline)
    }

    pub open spec fn assign_seq(self) -> Seq<(Seq<u8>, Seq<u8>)> {
        self.assign.seq_view()
    }

    /// The document-level mapping state that `apply` renders.
    pub open spec fn assign_map(self) -> Map<Seq<u8>, Seq<u8>> {
        self.assign.map_view()
    }

    pub open spec fn wf(self) -> bool {
        self.assign.wf() && (self.rows@.len() == 0 ==> !self.final_newline)
    }

    /// Parses the full text of a file. Succeeds exactly when every line
    /// belongs to the grammar; the first offending line is reported
    /// otherwise, and no partial document is produced. On success the
    /// document renders back to `text` byte for byte, and its working
    /// mapping is the left-to-right fold of its declarations.
    #[verifier::loop_isolation(false)]
    pub fn parse(text: &Vec<u8>) -> (r: Result<EnvFile, ParseError>)
        ensures
            (r is Ok) == all_lines_parse(text@),
            r matches Ok(f) ==> {
                &&& f.wf()
                &&& f.models() == doc_lines(text@).map_values(|l: Seq<u8>| row_model_of(l))
                &&& f.final_newline == doc_final_nl(text@)
                &&& f.text_view() == text@
                &&& f.assign_seq() == env_seq(f.models())
                &&& f.assign_map() == rows_env(f.models())
            },
            r matches Err(e) ==> exists|i: int|
                0 <= i < doc_lines(text@).len()
                && !line_parses(#[trigger] doc_lines(text@)[i])
                && e@ == err_model_of(doc_lines(text@)[i])
                && (forall|j: int| 0 <= j < i ==> line_parses(#[trigger] doc_lines(text@)[j])),
    {
        let n = text.len();
        if n == 0 {
            let assign = EnvMap::new();
            let f = EnvFile { rows: Vec::new(), final_newline: false, assign };
            proof {
                assert(f.models() =~= Seq::<RowModel>::empty());
                assert(doc_lines(text@) =~= Seq::<Seq<u8>>::empty());
                assert(f.models() =~= doc_lines(text@).map_values(|l: Seq<u8>| row_model_of(l)));
                assert(f.raws() =~= Seq::<Seq<u8>>::empty());
                assert(f.text_view() =~= text@);
                assert(f.assign_seq() =~= env_seq(f.models()));
                assert(f.assign_map() =~= rows_env(f.models()));
            }
            return Ok(f);
        }
        let ghost lines = nl_split(text@, 0);
        let mut rows: Vec<EnvFileRow> = Vec::new();
        let mut i: usize = 0;
        while i < n
            invariant
                i <= n,
                i > 0 ==> rows@.len() > 0,
                rows@.len() <= lines.len(),
                nl_split(text@, i as int) == lines.skip(rows@.len() as int),
                forall|j: int| 0 <= j < rows@.len()
                    ==> (#[trigger] rows@[j])@ == row_model_of(lines[j]),
                forall|j: int| 0 <= j < rows@.len() ==> line_parses(#[trigger] lines[j]),
                text@.take(i as int) == cat_nl(lines.take(rows@.len() as int)),
            decreases n - i,
        {
            let ghost k = rows@.len() as int;
            let p = scan_find(text, i, B_NL);
            let line = subvec(text, i, p);
            proof {
                assert(lines.skip(k)[0] == lines[k]);
                if p < n {
                    assert(nl_split(text@, i as int)
                        == seq![text@.subrange(i as int, p as int)] + nl_split(text@, p + 1));
                } else {
                    assert(nl_split(text@, i as int) == seq![text@.subrange(i as int, p as int)]);
                }
                assert(lines[k] == line@);
            }
            match parse_line(&line) {
                Err(e) => {
                    proof {
                        assert(!line_parses(lines[k]));
                        if doc_final_nl(text@) {
                            lemma_nl_split_last(text@, 0);
                            assert(lines.last() == Seq::<u8>::empty());
                            assert(blank_line(Seq::<u8>::empty()));
                            assert(line_parses(Seq::<u8>::empty()));
                            assert(k < lines.len() - 1);
                            assert(doc_lines(text@) == lines.drop_last());
                            assert(doc_lines(text@)[k] == lines[k]);
                            assert forall|j: int| 0 <= j < k
                                implies line_parses(#[trigger] doc_lines(text@)[j]) by {
                                assert(doc_lines(text@)[j] == lines[j]);
                            }
                        } else {
                            assert(doc_lines(text@) == lines);
                            assert(nl_split(text@, i as int).len() >= 1);
                            assert(k < lines.len());
                        }
                        assert(!all_lines_parse(text@));
                    }
                    return Err(e);
                }
                Ok(row) => {
                    proof {
                        assert(row@ == row_model_of(lines[k]));
                        assert(line_parses(lines[k]));
                    }
                    rows.push(row);
                }
            }
            if p < n {
                proof {
                    assert(lines.skip(k + 1) =~= nl_split(text@, p + 1)) by {
                        assert(nl_split(text@, i as int)
                            == seq![line@] + nl_split(text@, p + 1));
                        assert(lines.skip(k) == seq![line@] + nl_split(text@, p + 1));
                        assert forall|t: int| 0 <= t < nl_split(text@, p + 1).len()
                            implies lines.skip(k + 1)[t] == #[trigger] nl_split(text@, p + 1)[t] by {
                            assert(lines.skip(k)[t + 1] == nl_split(text@, p + 1)[t]);
                            assert(lines.skip(k)[t + 1] == lines[k + 1 + t]);
                            assert(lines.skip(k + 1)[t] == lines[k + 1 + t]);
                        }
                        assert(lines.skip(k + 1).len() == nl_split(text@, p + 1).len());
                    }
                    assert(text@[p as int] == B_NL);
                    assert(lines.take(k + 1).drop_last() =~= lines.take(k));
                    assert(lines.take(k + 1).last() == lines[k]);
                    assert(cat_nl(lines.take(k + 1))
                        == cat_nl(lines.take(k)) + lines[k] + seq![B_NL]);
                    assert(text@.take(p + 1)
                        =~= text@.take(i as int) + text@.subrange(i as int, p as int) + seq![B_NL]);
                    assert(text@.take(p + 1) == cat_nl(lines.take(k + 1)));
                }
                i = p + 1;
            } else {
                // The document's last line has no terminator.
                proof {
                    assert(lines.skip(k) == seq![line@]);
                    assert(lines.len() == k + 1);
                    lemma_find_byte_bounds(text@, i as int, B_NL);
                    assert(text@[n - 1] != B_NL);
                    assert(!doc_final_nl(text@));
                    assert(doc_lines(text@) == lines);
                    assert(lines.take(k + 1) =~= lines);
                }
                let assign = env_of_rows(&rows);
                let f = EnvFile { rows, final_newline: false, assign };
                proof {
                    lemma_parse_result(f, text@, lines);
                    assert(text@ =~= text@.take(i as int) + text@.subrange(i as int, n as int));
                    assert(f.raws().drop_last() =~= lines.take(k));
                    assert(f.raws().last() == line@);
                    assert(f.text_view() == cat_nl(lines.take(k)) + line@);
                    assert(f.text_view() == text@);
                }
                return Ok(f);
            }
        }
        // Every line, including the last, was newline-terminated.
        proof {
            assert(nl_split(text@, n as int) == seq![text@.subrange(n as int, n as int)]);
            assert(lines.skip(rows@.len() as int).len() == 1);
            assert(lines.len() == rows@.len() + 1);
            let k = rows@.len() as int;
            assert(text@.take(n as int) =~= text@);
            assert(lines.take(k).len() == k);
            assert(k > 0);
            assert(cat_nl(lines.take(k)).last() == B_NL) by {
                assert(cat_nl(lines.take(k))
                    == cat_nl(lines.take(k).drop_last()) + lines.take(k).last() + seq![B_NL]);
            }
            assert(text@.last() == B_NL);
            assert(doc_final_nl(text@));
            assert(doc_lines(text@) == lines.drop_last());
            assert(lines.drop_last() =~= lines.take(k));
        }
        let assign = env_of_rows(&rows);
        let f = EnvFile { rows, final_newline: true, assign };
        proof {
            let k = f.rows@.len() as int;
            lemma_parse_result(f, text@, lines);
            assert(f.text_view() == cat_nl(f.raws()));
            assert(f.raws() =~= lines.take(k));
            assert(f.text_view() == text@);
        }
        Ok(f)
    }

    /// The mapping view: a pure left-to-right fold over the rows, the last
    /// declaration of a key winning; comment and blank rows contribute
    /// nothing. The caller owns the result and may mutate it freely.
    pub fn env(&self) -> (r: EnvMap)
        ensures
            r.wf(),
            r.seq_view() == env_seq(self.models()),
            r.map_view() == rows_env(self.models()),
    {
        env_of_rows(&self.rows)
    }

    /// Serializes the document: rows joined by newlines, the last followed
    /// by one exactly when the document records a trailing newline.
    #[verifier::loop_isolation(false)]
    pub fn render(&self) -> (r: Vec<u8>)
        ensures
            r@ == self.text_view(),
    {
        let mut out: Vec<u8> = Vec::new();
        let mut i: usize = 0;
        proof {
            assert(self.raws().take(0) =~= Seq::<Seq<u8>>::empty());
        }
        while i < self.rows.len()
            invariant
                i <= self.rows@.len(),
                out@ == cat_nl(self.raws().take(i as int)),
            decreases self.rows@.len() - i,
        {
            proof {
                assert(self.raws().take(i + 1).drop_last() =~= self.raws().take(i as int));
                assert(self.raws().take(i + 1).last() == self.raws()[i as int]);
                assert(self.raws()[i as int] == raw_of(self.models()[i as int]));
                assert(self.models()[i as int] == self.rows@[i as int]@);
            }
            let raw = row_raw(&self.rows[i]);
            push_bytes(&mut out, raw);
            out.push(B_NL);
            i = i + 1;
            proof {
                assert(out@ =~= cat_nl(self.raws().take(i as int)));
            }
        }
        proof {
            assert(self.raws().take(self.raws().len() as int) =~= self.raws());
        }
        if !self.final_newline && self.rows.len() > 0 {
            proof {
                assert(cat_nl(self.raws())
                    == cat_nl(self.raws().drop_last()) + self.raws().last() + seq![B_NL]);
            }
            out.pop();
            proof {
                assert(out@ =~= cat_nl(self.raws().drop_last()) + self.raws().last());
            }
        }
        out
    }

    /// A copy of the document-level working mapping: seeded from the rows
    /// at parse time, grown by `apply_assign`. The update flow reads prompt
    /// defaults and final values from it.
    pub fn working(&self) -> (r: EnvMap)
        ensures
            r.seq_view() == self.assign_seq(),
            self.wf() ==> r.wf(),
    {
        self.assign.duplicate()
    }

    /// The rows, in document order, for consumers that react per line.
    pub fn stream(&self) -> (r: &Vec<EnvFileRow>)
        ensures
            r@ == self.rows@,
    {
        &self.rows
    }

    /// Merges `source` into this document's working mapping: absent keys are
    /// added, present keys are replaced only when `overwrite` is set, and no
    /// key is ever removed. The rows are untouched.
    pub fn apply_assign(&mut self, source: &EnvMap, overwrite: bool)
        requires
            old(self).wf(),
            source.wf(),
        ensures
            final(self).wf(),
            final(self).rows@ == old(self).rows@,
            final(self).final_newline == old(self).final_newline,
            final(self).assign_seq()
                == merge_seq(old(self).assign_seq(), source.seq_view(), overwrite),
            forall|k: Seq<u8>| #[trigger] final(self).assign_map().contains_key(k)
                <==> old(self).assign_map().contains_key(k)
                    || source.map_view().contains_key(k),
            forall|k: Seq<u8>| source.map_view().contains_key(k)
                && (overwrite || !old(self).assign_map().contains_key(k))
                ==> #[trigger] final(self).assign_map()[k] == source.map_view()[k],
            forall|k: Seq<u8>| old(self).assign_map().contains_key(k)
                && !(overwrite && source.map_view().contains_key(k))
                ==> #[trigger] final(self).assign_map()[k] == old(self).assign_map()[k],
    {
        self.assign.merge_from(source, overwrite);
    }

    /// Renders a new document from this one. The effective mapping is the
    /// working mapping overridden by `final_values`; each declaration whose
    /// key maps to its parsed value is kept byte-identical, a changed value
    /// is re-rendered with default formatting, and comment and blank rows
    /// pass through unchanged. When `include_missing` is set, keys of the
    /// effective mapping that no row declares are appended as new
    /// declarations, in mapping order; otherwise they are omitted.
    #[verifier::loop_isolation(false)]
    pub fn apply(&self, final_values: &EnvMap, include_missing: bool) -> (r: EnvFile)
        requires
            self.wf(),
            final_values.wf(),
        ensures
            r.wf(),
            r.final_newline == self.final_newline,
            ({
                let em = map_of(merge_seq(self.assign_seq(), final_values.seq_view(), true));
                r.models().take(self.rows@.len() as int)
                    == self.models().map_values(|m: RowModel| subst_model(m, em))
            }),
            include_missing ==> r.models().len() == self.models().len()
                + fresh_pairs(
                    merge_seq(self.assign_seq(), final_values.seq_view(), true),
                    decl_names(self.models()),
                ).len(),
            include_missing ==> r.models().skip(self.rows@.len() as int)
                == appended_models(fresh_pairs(
                    merge_seq(self.assign_seq(), final_values.seq_view(), true),
                    decl_names(self.models()),
                )),
            !include_missing ==> r.models().len() == self.models().len(),
            r.assign_seq() == env_seq(r.models()),
            r.assign_map() == rows_env(r.models()),
    {
        let mut effective = self.assign.duplicate();
        proof {
            assert(distinct_keys(effective.seq_view()));
        }
        effective.merge_from(final_values, true);
        let ghost em = map_of(effective.seq_view());
        let mut out_rows: Vec<EnvFileRow> = Vec::new();
        let mut i: usize = 0;
        while i < self.rows.len()
            invariant
                i <= self.rows@.len(),
                out_rows@.len() == i,
                forall|t: int| 0 <= t < i
                    ==> (#[trigger] out_rows@[t])@ == subst_model(self.models()[t], em),
            decreases self.rows@.len() - i,
        {
            proof {
                assert(self.models()[i as int] == self.rows@[i as int]@);
            }
            match &self.rows[i] {
                EnvFileRow::Declaration(d) => {
                    match effective.get(&d.name) {
                        Some(v) => {
                            if bytes_eq(v, &d.value) {
                                let copy = copy_row(&self.rows[i]);
                                out_rows.push(copy);
                            } else {
                                let name = copy_bytes(&d.name);
                                let value = copy_bytes(v);
                                let raw = default_raw_line(&d.name, v);
                                out_rows.push(EnvFileRow::Declaration(Declaration {
                                    name,
                                    value,
                                    raw,
                                }));
                            }
                        }
                        None => {
                            let copy = copy_row(&self.rows[i]);
                            out_rows.push(copy);
                        }
                    }
                }
                _ => {
                    let copy = copy_row(&self.rows[i]);
                    out_rows.push(copy);
                }
            }
            i = i + 1;
        }
        let ghost base_len = self.rows@.len() as int;
        let ghost names = decl_names(self.models());
        if include_missing {
            let mut j: usize = 0;
            proof {
                assert(effective.seq_view().take(0) =~= Seq::<(Seq<u8>, Seq<u8>)>::empty());
            }
            while j < effective.len()
                invariant
                    j <= effective.seq_view().len(),
                    out_rows@.len() >= base_len,
                    forall|t: int| 0 <= t < base_len
                        ==> (#[trigger] out_rows@[t])@ == subst_model(self.models()[t], em),
                    models_of(out_rows@).skip(base_len)
                        == appended_models(fresh_pairs(effective.seq_view().take(j as int), names)),
                decreases effective.seq_view().len() - j,
            {
                let ghost before = models_of(out_rows@);
                proof {
                    assert(effective.seq_view().take(j + 1).drop_last()
                        =~= effective.seq_view().take(j as int));
                    assert(effective.seq_view().take(j + 1).last()
                        == effective.seq_view()[j as int]);
                }
                let k = effective.key_at(j);
                if !has_decl(&self.rows, k) {
                    let name = copy_bytes(k);
                    let value = copy_bytes(effective.value_at(j));
                    let raw = default_raw_line(k, effective.value_at(j));
                    out_rows.push(EnvFileRow::Declaration(Declaration { name, value, raw }));
                    proof {
                        let p = effective.seq_view()[j as int];
                        assert(!names.contains(p.0));
                        assert(fresh_pairs(effective.seq_view().take(j + 1), names)
                            == fresh_pairs(effective.seq_view().take(j as int), names).push(p));
                        assert(models_of(out_rows@).skip(base_len)
                            =~= before.skip(base_len).push(RowModel::Decl {
                                name: p.0,
                                value: p.1,
                                raw: default_raw(p.0, p.1),
                            }));
                        assert(appended_models(fresh_pairs(effective.seq_view().take(j + 1), names))
                            =~= appended_models(fresh_pairs(effective.seq_view().take(j as int), names))
                                .push(RowModel::Decl { name: p.0, value: p.1, raw: default_raw(p.0, p.1) }));
                    }
                } else {
                    proof {
                        let p = effective.seq_view()[j as int];
                        assert(names.contains(p.0));
                        assert(fresh_pairs(effective.seq_view().take(j + 1), names)
                            == fresh_pairs(effective.seq_view().take(j as int), names));
                    }
                }
                j = j + 1;
            }
            proof {
                assert(effective.seq_view().take(effective.seq_view().len() as int)
                    =~= effective.seq_view());
            }
        }
        let assign = env_of_rows(&out_rows);
        let f = EnvFile {
            rows: out_rows,
            final_newline: self.final_newline,
            assign,
        };
        proof {
            assert(f.models().take(base_len)
                =~= self.models().map_values(|m: RowModel| subst_model(m, em)));
            if !include_missing {
                assert(f.models().len() == self.models().len());
            }
            if f.rows@.len() == 0 {
                assert(self.rows@.len() == 0);
            }
        }
        f
    }
}

/// The original bytes of one row.
fn row_raw(row: &EnvFileRow) -> (r: &Vec<u8>)
    ensures
        r@ == raw_of(row@),
{
    match row {
        EnvFileRow::Declaration(d) => &d.raw,
        EnvFileRow::CommentOnly(c) => &c.raw,
        EnvFileRow::Empty(b) => &b.raw,
    }
}

/// A deep copy of one row.
fn copy_row(row: &EnvFileRow) -> (r: EnvFileRow)
    ensures
        r@ == row@,
{
    match row {
        EnvFileRow::Declaration(d) => EnvFileRow::Declaration(Declaration {
            name: copy_bytes(&d.name),
            value: copy_bytes(&d.value),
            raw: copy_bytes(&d.raw),
        }),
        EnvFileRow::CommentOnly(c) => EnvFileRow::CommentOnly(crate::row::CommentRow {
            text: copy_bytes(&c.text),
            raw: copy_bytes(&c.raw),
        }),
        EnvFileRow::Empty(b) => EnvFileRow::Empty(crate::row::BlankRow {
            raw: copy_bytes(&b.raw),
        }),
    }
}

/// `NAME=value`, the default rendering of a new declaration.
fn default_raw_line(name: &Vec<u8>, value: &Vec<u8>) -> (r: Vec<u8>)
    ensures
        r@ == default_raw(name@, value@),
{
    let mut r = copy_bytes(name);
    r.push(B_EQ);
    push_bytes(&mut r, value);
    proof {
        assert(r@ =~= name@ + seq![B_EQ] + value@);
    }
    r
}

/// Whether any row declares the key `k`.
#[verifier::loop_isolation(false)]
fn has_decl(rows: &Vec<EnvFileRow>, k: &Vec<u8>) -> (r: bool)
    ensures
        r == decl_names(models_of(rows@)).contains(k@),
{
    proof {
        lemma_decl_names(models_of(rows@));
    }
    let ghost ms = models_of(rows@);
    let mut i: usize = 0;
    while i < rows.len()
        invariant
            i <= rows@.len(),
            forall|t: int| 0 <= t < i ==> !is_decl_named(#[trigger] ms[t], k@),
        decreases rows@.len() - i,
    {
        proof {
            assert(ms[i as int] == rows@[i as int]@);
        }
        match &rows[i] {
            EnvFileRow::Declaration(d) => {
                if bytes_eq(&d.name, k) {
                    assert(is_decl_named(ms[i as int], k@));
                    return true;
                }
            }
            _ => {}
        }
        i = i + 1;
    }
    false
}

/// When a trailing newline closes the text, the split carries one final
/// empty segment.
proof fn lemma_nl_split_last(t: Seq<u8>, i: int)
    requires
        0 <= i <= t.len(),
        t.len() > 0,
        t.last() == B_NL,
    ensures
        nl_split(t, i).len() >= 1,
        nl_split(t, i).last() == Seq::<u8>::empty(),
    decreases t.len() - i,
{
    let p = find_byte(t, i, B_NL);
    lemma_find_byte_bounds(t, i, B_NL);
    if p == t.len() {
        assert(i == t.len());
        assert(t.subrange(i, p) =~= Seq::<u8>::empty());
    } else {
        lemma_nl_split_last(t, p + 1);
    }
}

/// Shared part of `parse`'s success proof: models, mapping and raw lines of
/// the finished document.
proof fn lemma_parse_result(f: EnvFile, t: Seq<u8>, lines: Seq<Seq<u8>>)
    requires
        f.assign.wf(),
        f.assign_seq() == env_seq(f.models()),
        doc_lines(t).len() == f.rows@.len(),
        forall|j: int| 0 <= j < f.rows@.len()
            ==> (#[trigger] f.rows@[j])@ == row_model_of(doc_lines(t)[j]),
        forall|j: int| 0 <= j < f.rows@.len() ==> line_parses(#[trigger] doc_lines(t)[j]),
    ensures
        f.models() == doc_lines(t).map_values(|l: Seq<u8>| row_model_of(l)),
        all_lines_parse(t),
        forall|j: int| 0 <= j < f.raws().len() ==> #[trigger] f.raws()[j] == doc_lines(t)[j],
        f.raws().len() == f.rows@.len(),
{
    assert(f.models() =~= doc_lines(t).map_values(|l: Seq<u8>| row_model_of(l)));
    assert forall|j: int| 0 <= j < f.raws().len()
        implies #[trigger] f.raws()[j] == doc_lines(t)[j] by {
        assert(f.models()[j] == row_model_of(doc_lines(t)[j]));
        assert(raw_of(row_model_of(doc_lines(t)[j])) == doc_lines(t)[j]);
    }
}

/// Folds the rows into a fresh mapping, last declaration winning.
#[verifier::loop_isolation(false)]
fn env_of_rows(rows: &Vec<EnvFileRow>) -> (r: EnvMap)
    ensures
        r.wf(),
        r.seq_view() == env_seq(models_of(rows@)),
        r.map_view() == rows_env(models_of(rows@)),
{
    let ghost ms = models_of(rows@);
    let mut m = EnvMap::new();
    let mut i: usize = 0;
    proof {
        assert(ms.take(0) =~= Seq::<RowModel>::empty());
    }
    while i < rows.len()
        invariant
            i <= rows@.len(),
            m.wf(),
            m.seq_view() == env_seq(ms.take(i as int)),
        decreases rows@.len() - i,
    {
        proof {
            assert(ms.take(i + 1).drop_last() =~= ms.take(i as int));
            assert(ms.take(i + 1).last() == ms[i as int]);
            assert(ms[i as int] == rows@[i as int]@);
        }
        match &rows[i] {
            EnvFileRow::Declaration(d) => {
                let k = copy_bytes(&d.name);
                let v = copy_bytes(&d.value);
                m.insert(k, v);
                assert(m.seq_view() == env_seq(ms.take(i + 1)));
            }
            _ => {
                assert(m.seq_view() == env_seq(ms.take(i + 1)));
            }
        }
        i = i + 1;
    }
    proof {
        assert(ms.take(ms.len() as int) =~= ms);
    }
    m
}

} // verus!
