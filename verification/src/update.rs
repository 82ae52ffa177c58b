//! The decisions of the update flow that synchronizes an output file with a
//! template: which declarations to prompt for, with what text, and what
//! value a prompt reply yields. The surrounding front end only performs the
//! I/O these decisions call for, row by row in document order.

use vstd::prelude::*;
use crate::bytes::{copy_bytes, push_bytes};
use crate::row::{EnvFileRow, RowModel, B_HASH, B_SPACE, B_NL};
use crate::env_map::EnvMap;

verus! {

/// Arguments of the interactive update command.
pub struct Cmd {
    /// Name of the file to load as input.
    pub input: String,
    /// Name of the file to load as output.
    pub output: String,
    /// Skip already filled variables.
    pub only_empty: bool,
    /// Skip unfilled variables.
    pub only_filled: bool,
}

/// Arguments of the synchronous update flow; same shape as `Cmd`.
pub struct Args {
    /// Name of the file to load as input.
    pub input: String,
    /// Name of the file to load as output.
    pub output: String,
    /// Skip already filled variables.
    pub only_empty: bool,
    /// Skip unfilled variables.
    pub only_filled: bool,
}

/// What the front end must do for one row of the template.
pub enum RowAction {
    /// Nothing: the row is a comment or blank line, or a skipped variable.
    Skip,
    /// Ask for a value, showing `prompt`; on reply, the new value for `key`
    /// is `response_value(&default, reply)`.
    Ask { prompt: Vec<u8>, key: Vec<u8>, default: Vec<u8> },
}

/// Decides one row of the template. Comment text accumulates in `buffer`
/// (as `# text` lines) to prefix the next prompt; blank lines change
/// nothing. A declaration is skipped when `only_empty` is set and the key
/// is filled, or `only_filled` is set and it is not; whether a key counts
/// as filled is judged by `present` — the output document's own rows, not
/// the seeded working mapping, so a key the merge just added is still
/// prompted for. A prompted declaration shows the value `defaults` holds
/// for the key (the seeded working mapping: the user's value where one
/// exists, else the template's), when non-empty. Any decision about a
/// declaration clears the buffer.
pub fn plan_row(
    row: &EnvFileRow,
    present: &EnvMap,
    defaults: &EnvMap,
    only_empty: bool,
    only_filled: bool,
    buffer: &mut Vec<u8>,
) -> (r: RowAction)
    requires
        defaults.wf(),
    ensures
        row@ matches RowModel::Comment { text, .. } ==> (r is Skip
            && final(buffer)@ == old(buffer)@ + seq![B_HASH, B_SPACE] + text + seq![B_NL]),
        row@ is Blank ==> (r is Skip && final(buffer)@ == old(buffer)@),
        row@ matches RowModel::Decl { name, .. } ==> ({
            let filled = present.map_view().contains_key(name);
            let default = if defaults.map_view().contains_key(name) {
                defaults.map_view()[name]
            } else {
                Seq::<u8>::empty()
            };
            &&& final(buffer)@ == Seq::<u8>::empty()
            &&& ((only_empty && filled) || (only_filled && !filled)) ==> r is Skip
            &&& !((only_empty && filled) || (only_filled && !filled))
                ==> (r matches RowAction::Ask { prompt, key, default: d }
                    && key@ == name
                    && d@ == default
                    && prompt@ == old(buffer)@ + name
                        + (if default.len() > 0 {
                            seq![B_SPACE, 40u8] + default + seq![41u8]
                        } else {
                            Seq::<u8>::empty()
                        }))
        }),
{
    match row {
        EnvFileRow::CommentOnly(c) => {
            buffer.push(B_HASH);
            buffer.push(B_SPACE);
            push_bytes(buffer, &c.text);
            buffer.push(B_NL);
            proof {
                assert(buffer@ =~= old(buffer)@ + seq![B_HASH, B_SPACE] + c.text@ + seq![B_NL]);
            }
            RowAction::Skip
        }
        EnvFileRow::Empty(_) => RowAction::Skip,
        EnvFileRow::Declaration(d) => {
            let filled = present.contains(&d.name);
            if (only_empty && filled) || (only_filled && !filled) {
                buffer.clear();
                return RowAction::Skip;
            }
            let default: Vec<u8> = match defaults.get(&d.name) {
                Some(v) => copy_bytes(v),
                None => Vec::new(),
            };
            let mut prompt = copy_bytes(buffer);
            push_bytes(&mut prompt, &d.name);
            if default.len() > 0 {
                prompt.push(B_SPACE);
                prompt.push(40u8);
                push_bytes(&mut prompt, &default);
                prompt.push(41u8);
                proof {
                    assert(prompt@ =~= old(buffer)@ + d.name@
                        + (seq![B_SPACE, 40u8] + default@ + seq![41u8]));
                }
            }
            buffer.clear();
            let key = copy_bytes(&d.name);
            RowAction::Ask { prompt, key, default }
        }
    }
}

/// The value a prompt reply yields: a non-empty reply is taken as entered,
/// an empty reply keeps the default, and no reply (end of input) clears the
/// variable.
pub fn response_value(default: &Vec<u8>, reply: Option<Vec<u8>>) -> (r: Vec<u8>)
    ensures
        r@ == match reply {
            None => Seq::<u8>::empty(),
            Some(l) => if l@.len() > 0 { l@ } else { default@ },
        },
{
    match reply {
        None => Vec::new(),
        Some(l) => {
            if l.len() > 0 {
                l
            } else {
                copy_bytes(default)
            }
        }
    }
}

/// Whether a character has the Unicode `White_Space` property; a function
/// of the character alone.
pub uninterp spec fn unicode_ws(c: char) -> bool;

/// Relies on char::is_whitespace: true exactly for characters with the
/// Unicode `White_Space` property, depending on the character alone.
pub assume_specification[ char::is_whitespace ](c: char) -> (r: bool)
    ensures
        r == unicode_ws(c),
;

/// Largest `j <= i` such that `s[j - 1]` exists and is not Unicode
/// whitespace, or `0`: where the reply ends once trailing whitespace is
/// stripped.
pub open spec fn reply_end(s: Seq<char>, i: int) -> int
    decreases i,
{
    if i <= 0 {
        0
    } else if i - 1 < s.len() && unicode_ws(s[i - 1]) {
        reply_end(s, i - 1)
    } else {
        i
    }
}

/// Interprets one raw line read from the prompt: nothing read at all means
/// end of input; otherwise the reply is the line with every trailing
/// Unicode whitespace character (the terminator included) stripped, so a
/// reply never ends in whitespace. The caller converts the kept characters
/// to bytes before handing them to the file model.
pub fn parse_prompt_reply(raw: &Vec<char>) -> (r: Option<Vec<char>>)
    ensures
        raw@.len() == 0 ==> r is None,
        raw@.len() > 0 ==> (r matches Some(l)
            && l@ == raw@.take(reply_end(raw@, raw@.len() as int))
            && (l@.len() > 0 ==> !unicode_ws(l@[l@.len() - 1]))),
{
    if raw.len() == 0 {
        return None;
    }
    let mut e: usize = raw.len();
    while e > 0 && raw[e - 1].is_whitespace()
        invariant
            e <= raw@.len(),
            reply_end(raw@, raw@.len() as int) == reply_end(raw@, e as int),
        decreases e,
    {
        e = e - 1;
    }
    let mut out: Vec<char> = Vec::new();
    let mut i: usize = 0;
    while i < e
        invariant
            i <= e <= raw@.len(),
            out@ == raw@.take(i as int),
        decreases e - i,
    {
        out.push(raw[i]);
        i = i + 1;
        assert(out@ =~= raw@.take(i as int));
    }
    Some(out)
}

} // verus!
