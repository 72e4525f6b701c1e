//! The text of the grouped layout, as bytes.
//!
//! Each group is written as its name, a colon and a blank line, then one line
//! per row, then a blank line. A row line holds the row's fields except the
//! grouping column, separated by `", "`. Inside a group name a newline byte is
//! written as the two characters `\n`, so that a header always stays on one
//! line; row fields are written as they are.

use vstd::prelude::*;
use vstd::utf8::encode_utf8;

verus! {

/// `b` with each newline byte replaced by a backslash and an `n`.
pub open spec fn escape_newlines(b: Seq<u8>) -> Seq<u8>
    decreases b.len(),
{
    if b.len() == 0 {
        Seq::empty()
    } else {
        escape_newlines(b.drop_last()) + if b.last() == 0x0a {
            seq![0x5cu8, 0x6eu8]
        } else {
            seq![b.last()]
        }
    }
}

/// The header line of the group named `name`, with the blank line after it.
pub open spec fn header_text(name: Seq<char>) -> Seq<u8> {
    escape_newlines(encode_utf8(name)) + seq![0x3au8, 0x0au8, 0x0au8]
}

/// The fields of `fields` other than the one at `skip`, in order.
pub open spec fn kept_fields(fields: Seq<Seq<char>>, skip: nat) -> Seq<Seq<char>>
    decreases fields.len(),
{
    if fields.len() == 0 {
        Seq::empty()
    } else if fields.len() - 1 == skip {
        kept_fields(fields.drop_last(), skip)
    } else {
        kept_fields(fields.drop_last(), skip).push(fields.last())
    }
}

/// The UTF-8 text of `fields`, separated by `", "`.
pub open spec fn joined(fields: Seq<Seq<char>>) -> Seq<u8>
    decreases fields.len(),
{
    if fields.len() == 0 {
        Seq::empty()
    } else if fields.len() == 1 {
        encode_utf8(fields[0])
    } else {
        joined(fields.drop_last()) + seq![0x2cu8, 0x20u8] + encode_utf8(fields.last())
    }
}

/// The line printed for a row: its fields without the one at `skip`.
pub open spec fn row_text(fields: Seq<Seq<char>>, skip: nat) -> Seq<u8> {
    joined(kept_fields(fields, skip)) + seq![0x0au8]
}

/// The lines printed for `rows`, one per row.
pub open spec fn rows_text(rows: Seq<Seq<Seq<char>>>, skip: nat) -> Seq<u8>
    decreases rows.len(),
{
    if rows.len() == 0 {
        Seq::empty()
    } else {
        rows_text(rows.drop_last(), skip) + row_text(rows.last(), skip)
    }
}

/// The text of one group: header, rows, and a blank line.
pub open spec fn group_text(group: (Seq<char>, Seq<Seq<Seq<char>>>), skip: nat) -> Seq<u8> {
    header_text(group.0) + rows_text(group.1, skip) + seq![0x0au8]
}

/// The text of all groups, in order.
pub open spec fn layout_text(groups: Seq<(Seq<char>, Seq<Seq<Seq<char>>>)>, skip: nat) -> Seq<u8>
    decreases groups.len(),
{
    if groups.len() == 0 {
        Seq::empty()
    } else {
        layout_text(groups.drop_last(), skip) + group_text(groups.last(), skip)
    }
}

/// A group header never holds a newline before its closing colon.
pub proof fn lemma_escape_newlines_has_no_newline(b: Seq<u8>)
    ensures
        forall|i: int| 0 <= i < escape_newlines(b).len() ==> #[trigger] escape_newlines(b)[i] != 0x0a,
    decreases b.len(),
{
    if b.len() > 0 {
        lemma_escape_newlines_has_no_newline(b.drop_last());
        let prefix = escape_newlines(b.drop_last());
        let tail: Seq<u8> = if b.last() == 0x0a { seq![0x5cu8, 0x6eu8] } else { seq![b.last()] };
        assert(escape_newlines(b) == prefix + tail);
        assert forall|i: int| 0 <= i < escape_newlines(b).len() implies #[trigger] escape_newlines(b)[i] != 0x0a by {
            if i < prefix.len() {
                assert(escape_newlines(b)[i] == prefix[i]);
            } else {
                assert(escape_newlines(b)[i] == tail[i - prefix.len()]);
            }
        }
    }
}

/// A printed row leaves out exactly the grouping column: the field at `skip`
/// when the row has one, and nothing otherwise.
pub proof fn lemma_kept_fields_omit_one(fields: Seq<Seq<char>>, skip: nat)
    ensures
        kept_fields(fields, skip) == if skip < fields.len() {
            fields.remove(skip as int)
        } else {
            fields
        },
    decreases fields.len(),
{
    if fields.len() > 0 {
        let d = fields.drop_last();
        lemma_kept_fields_omit_one(d, skip);
        if skip < d.len() {
            assert(d.remove(skip as int).push(fields.last()) =~= fields.remove(skip as int));
        } else if skip == d.len() {
            assert(d =~= fields.remove(skip as int));
        } else {
            assert(d.push(fields.last()) =~= fields);
        }
    } else {
        assert(kept_fields(fields, skip) =~= fields);
    }
}

/// The separator and the text of one field after the first.
pub open spec fn separated(field: Seq<char>) -> Seq<u8> {
    seq![0x2cu8, 0x20u8] + encode_utf8(field)
}

/// A row line is every kept field, each one whatever it holds (an empty one
/// too), in order, with `", "` between consecutive fields: the first field's
/// text, then `", "` and the text of each further field.
pub proof fn lemma_joined_separates_every_field(fs: Seq<Seq<char>>)
    requires
        fs.len() > 0,
    ensures
        joined(fs) == encode_utf8(fs[0]) + fs.drop_first().map_values(|f: Seq<char>| separated(f)).flatten(),
    decreases fs.len(),
{
    if fs.len() == 1 {
        assert(fs.drop_first().map_values(|f: Seq<char>| separated(f)) =~= Seq::<Seq<u8>>::empty());
        assert(Seq::<Seq<u8>>::empty().flatten() =~= Seq::<u8>::empty());
        assert(encode_utf8(fs[0]) + Seq::<u8>::empty() =~= encode_utf8(fs[0]));
    } else {
        let d = fs.drop_last();
        lemma_joined_separates_every_field(d);
        let md = d.drop_first().map_values(|f: Seq<char>| separated(f));
        let mf = fs.drop_first().map_values(|f: Seq<char>| separated(f));
        assert(mf =~= md.push(separated(fs.last())));
        md.lemma_flatten_push(separated(fs.last()));
        assert(d[0] == fs[0]);
        assert(joined(fs) == joined(d) + seq![0x2cu8, 0x20u8] + encode_utf8(fs.last()));
        assert(joined(fs) =~= encode_utf8(fs[0]) + mf.flatten());
    }
}

/// The line printed for a row with a field at `skip` and at least one other
/// field: the text of the first field other than the one at `skip`, then
/// `", "` and the text of each further field other than it, then a newline.
/// Every other field is written, empty or not, and the separators number
/// one less than the written fields.
pub proof fn lemma_row_text_writes_every_other_field(fields: Seq<Seq<char>>, skip: nat)
    requires
        skip < fields.len(),
        fields.len() >= 2,
    ensures
        ({
            let kept = fields.remove(skip as int);
            row_text(fields, skip) == encode_utf8(kept[0]) + kept.drop_first().map_values(
                |f: Seq<char>| separated(f),
            ).flatten() + seq![0x0au8]
        }),
{
    lemma_kept_fields_omit_one(fields, skip);
    lemma_joined_separates_every_field(fields.remove(skip as int));
}

/// The printed rows are the line of every row, in order.
pub proof fn lemma_rows_text_is_every_row(rows: Seq<Seq<Seq<char>>>, skip: nat)
    ensures
        rows_text(rows, skip) == rows.map_values(|r: Seq<Seq<char>>| row_text(r, skip)).flatten(),
    decreases rows.len(),
{
    let m = rows.map_values(|r: Seq<Seq<char>>| row_text(r, skip));
    if rows.len() == 0 {
        assert(m =~= Seq::<Seq<u8>>::empty());
    } else {
        lemma_rows_text_is_every_row(rows.drop_last(), skip);
        let md = rows.drop_last().map_values(|r: Seq<Seq<char>>| row_text(r, skip));
        assert(m =~= md.push(row_text(rows.last(), skip)));
        md.lemma_flatten_push(row_text(rows.last(), skip));
    }
}

/// The layout is the text of every group, in order, whatever the groups are
/// named (the group named by the empty text too): for each group its header,
/// a blank line, its rows and a blank line.
pub proof fn lemma_layout_text_is_every_group(
    groups: Seq<(Seq<char>, Seq<Seq<Seq<char>>>)>,
    skip: nat,
)
    ensures
        layout_text(groups, skip) == groups.map_values(
            |g: (Seq<char>, Seq<Seq<Seq<char>>>)| group_text(g, skip),
        ).flatten(),
        forall|i: int|
            0 <= i < groups.len() ==> #[trigger] group_text(groups[i], skip) == header_text(
                groups[i].0,
            ) + rows_text(groups[i].1, skip) + seq![0x0au8],
    decreases groups.len(),
{
    let m = groups.map_values(|g: (Seq<char>, Seq<Seq<Seq<char>>>)| group_text(g, skip));
    if groups.len() == 0 {
        assert(m =~= Seq::<Seq<u8>>::empty());
    } else {
        lemma_layout_text_is_every_group(groups.drop_last(), skip);
        let md = groups.drop_last().map_values(
            |g: (Seq<char>, Seq<Seq<Seq<char>>>)| group_text(g, skip),
        );
        assert(m =~= md.push(group_text(groups.last(), skip)));
        md.lemma_flatten_push(group_text(groups.last(), skip));
    }
}

/// Escaping changes nothing in bytes without a newline, and turns a newline
/// into a backslash and an `n`.
pub proof fn lemma_escape_newlines_bytes(b: Seq<u8>, x: u8)
    ensures
        (forall|i: int| 0 <= i < b.len() ==> #[trigger] b[i] != 0x0a) ==> escape_newlines(b) == b,
        escape_newlines(b.push(x)) == escape_newlines(b) + if x == 0x0a {
            seq![0x5cu8, 0x6eu8]
        } else {
            seq![x]
        },
    decreases b.len(),
{
    assert(b.push(x).drop_last() == b);
    if b.len() > 0 {
        lemma_escape_newlines_bytes(b.drop_last(), b.last());
        if forall|i: int| 0 <= i < b.len() ==> #[trigger] b[i] != 0x0a {
            assert forall|i: int| 0 <= i < b.drop_last().len() implies #[trigger] b.drop_last()[i] != 0x0a by {
                assert(b.drop_last()[i] == b[i]);
            }
            assert(b.last() != 0x0a);
            assert(b.drop_last().push(b.last()) =~= b);
        }
    } else {
        assert(escape_newlines(b) =~= b);
    }
}

/// Appends the bytes of `bytes` to `out`.
pub fn append_bytes(out: &mut Vec<u8>, bytes: &[u8])
    ensures
        final(out)@ == old(out)@ + bytes@,
{
    let ghost start = out@;
    let mut i: usize = 0;
    while i < bytes.len()
        invariant
            i <= bytes@.len(),
            out@ == start + bytes@.take(i as int),
        decreases bytes@.len() - i,
    {
        out.push(bytes[i]);
        assert(bytes@.take(i + 1) == bytes@.take(i as int).push(bytes@[i as int]));
        i = i + 1;
    }
    assert(bytes@.take(bytes@.len() as int) == bytes@);
}

/// Appends the UTF-8 text of `s` to `out`.
pub fn append_str(out: &mut Vec<u8>, s: &str)
    ensures
        final(out)@ == old(out)@ + encode_utf8(s@),
{
    append_bytes(out, s.as_bytes());
}

/// Appends the header of the group named `name` to `out`.
pub fn write_header(out: &mut Vec<u8>, name: &str)
    ensures
        final(out)@ == old(out)@ + header_text(name@),
{
    let ghost start = out@;
    let bytes = name.as_bytes();
    let mut i: usize = 0;
    while i < bytes.len()
        invariant
            i <= bytes@.len(),
            out@ == start + escape_newlines(bytes@.take(i as int)),
        decreases bytes@.len() - i,
    {
        assert(bytes@.take(i + 1).drop_last() == bytes@.take(i as int));
        if bytes[i] == 0x0a {
            out.push(0x5c);
            out.push(0x6e);
        } else {
            out.push(bytes[i]);
        }
        i = i + 1;
    }
    assert(bytes@.take(bytes@.len() as int) == bytes@);
    out.push(0x3a);
    out.push(0x0a);
    out.push(0x0a);
}

} // verus!
