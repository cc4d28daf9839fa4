//! Names of users and groups, looked up by id in the text of an account
//! database: one account per line, its fields separated by colons, the name
//! first and the id third.
use crate::numtext::{parse_number, parse_unsigned};
use vstd::prelude::*;
use vstd::slice::slice_subrange;

verus! {

/// ASCII line feed.
pub const LINE_FEED: u8 = 10;

/// ASCII carriage return.
pub const CARRIAGE_RETURN: u8 = 13;

/// ASCII `':'`.
pub const COLON: u8 = 58;

/// The place of the first `b` in `s`, or the length of `s` where it holds
/// none.
pub open spec fn index_of(s: Seq<u8>, b: u8) -> nat
    decreases s.len(),
{
    if s.len() == 0 || s[0] == b {
        0
    } else {
        1 + index_of(s.skip(1), b)
    }
}

/// The first line of a text that is not empty: what stands before the first
/// line feed, without a carriage return just before that line feed.
pub open spec fn first_line(text: Seq<u8>) -> Seq<u8> {
    let end = index_of(text, 10);
    let raw = text.take(end as int);
    if end < text.len() && raw.len() > 0 && raw.last() == 13 {
        raw.drop_last()
    } else {
        raw
    }
}

/// What follows the first line of a text and its line feed.
pub open spec fn after_first_line(text: Seq<u8>) -> Seq<u8> {
    let end = index_of(text, 10);
    if end < text.len() {
        text.skip((end + 1) as int)
    } else {
        Seq::empty()
    }
}

/// The lines of a text.  A line ends at a line feed, or at a carriage
/// return and a line feed; the last line may lack its line feed.
pub open spec fn lines_of(text: Seq<u8>) -> Seq<Seq<u8>>
    decreases text.len(),
{
    if text.len() == 0 {
        Seq::empty()
    } else {
        seq![first_line(text)] + lines_of(after_first_line(text))
    }
}

/// The field of a line that stands after `k` colons, if the line has that
/// many.
pub open spec fn field_of(line: Seq<u8>, k: nat) -> Option<Seq<u8>>
    decreases k,
{
    let end = index_of(line, 58);
    if k == 0 {
        Some(line.take(end as int))
    } else if end == line.len() {
        None
    } else {
        field_of(line.skip((end + 1) as int), (k - 1) as nat)
    }
}

/// The id of the account on a line: its third field read as a decimal
/// number that fits 32 bits.  `None` where the line has fewer than three
/// fields; `Some(None)` where the third field is no such number.
pub open spec fn line_id(line: Seq<u8>) -> Option<Option<nat>> {
    match field_of(line, 2) {
        None => None,
        Some(text) => Some(parse_unsigned(text, 10, u32::MAX as nat)),
    }
}

/// The line has three fields or more and its third is no number.
pub open spec fn is_malformed(line: Seq<u8>) -> bool {
    line_id(line) == Some(None::<nat>)
}

/// The line is the account with the given id.
pub open spec fn is_account(line: Seq<u8>, id: u32) -> bool {
    line_id(line) == Some(Some(id as nat))
}

/// The name on the last of the lines that is the account with the given id;
/// empty where none is.
pub open spec fn last_account_name(lines: Seq<Seq<u8>>, id: u32) -> Seq<u8>
    decreases lines.len(),
{
    if lines.len() == 0 {
        Seq::empty()
    } else if is_account(lines.last(), id) {
        field_of(lines.last(), 0)->Some_0
    } else {
        last_account_name(lines.drop_last(), id)
    }
}

/// Some line of the list is malformed.
pub open spec fn any_malformed(lines: Seq<Seq<u8>>) -> bool {
    exists|i: int| 0 <= i < lines.len() && is_malformed(#[trigger] lines[i])
}

/// The name of the account with the given id in a database: that of the
/// last line with this id, empty where no line has it.  A database with a
/// malformed line gives no answer.
pub open spec fn spec_lookup_name(database: Seq<u8>, id: u32) -> Option<Seq<u8>> {
    if any_malformed(lines_of(database)) {
        None
    } else {
        Some(last_account_name(lines_of(database), id))
    }
}

/// The place of the first `b` in `text` at or after `from`, or the length of
/// `text` where none follows.
pub fn find_byte(text: &[u8], from: usize, b: u8) -> (place: usize)
    requires
        from <= text@.len(),
    ensures
        from <= place <= text@.len(),
        place - from == index_of(text@.skip(from as int), b),
{
    let mut i: usize = from;
    while i < text.len() && text[i] != b
        invariant
            from <= i <= text@.len(),
            index_of(text@.skip(from as int), b) == (i - from) + index_of(
                text@.skip(i as int),
                b,
            ),
        decreases text.len() - i,
    {
        assert(text@.skip(i as int).skip(1) =~= text@.skip(i + 1));
        i = i + 1;
    }
    i
}

/// The id and the name of the account on a line.
fn read_line(line: &[u8]) -> (account: Option<(Option<u64>, &[u8])>)
    ensures
        match account {
            None => line_id(line@) is None,
            Some((id, name)) => {
                &&& line_id(line@) == Some(
                    match id {
                        Some(n) => Some(n as nat),
                        None => None,
                    },
                )
                &&& id matches Some(n) ==> n <= u32::MAX
                &&& field_of(line@, 0) == Some(name@)
            },
        },
{
    reveal_with_fuel(field_of, 3);
    let first = find_byte(line, 0, COLON);
    assert(line@.skip(0) =~= line@);
    if first == line.len() {
        return None;
    }
    let second = find_byte(line, first + 1, COLON);
    if second == line.len() {
        return None;
    }
    let third = find_byte(line, second + 1, COLON);
    proof {
        let after_first = line@.skip(first + 1);
        assert(after_first.skip(second - first) =~= line@.skip(second + 1));
        assert(line@.skip(second + 1).take(third - second - 1) =~= line@.subrange(
            second + 1,
            third as int,
        ));
        assert(line@.take(first as int) =~= line@.subrange(0, first as int));
    }
    let id = parse_number(slice_subrange(line, second + 1, third), 10, u32::MAX as u64);
    Some((id, slice_subrange(line, 0, first)))
}

/// The name of the account with the given id in the text of an account
/// database, empty where the database holds no such account; `None` where
/// a line of three fields or more has a third field that is no decimal
/// number of 32 bits.
pub fn lookup_name(database: &[u8], id: u32) -> (name: Option<Vec<u8>>)
    ensures
        match name {
            Some(n) => spec_lookup_name(database@, id) == Some(n@),
            None => spec_lookup_name(database@, id) is None,
        },
{
    let len = database.len();
    let mut found: Vec<u8> = Vec::new();
    let mut pos: usize = 0;
    let ghost mut done: Seq<Seq<u8>> = Seq::empty();
    proof {
        assert(database@.skip(0) =~= database@);
        assert(done + lines_of(database@) =~= lines_of(database@));
    }
    while pos < len
        invariant
            pos <= len == database@.len(),
            lines_of(database@) == done + lines_of(database@.skip(pos as int)),
            !any_malformed(done),
            found@ == last_account_name(done, id),
        decreases len - pos,
    {
        let ghost text = database@.skip(pos as int);
        let end = find_byte(database, pos, LINE_FEED);
        let stop = if end < len && end > pos && database[end - 1] == CARRIAGE_RETURN {
            end - 1
        } else {
            end
        };
        let next = if end < len {
            end + 1
        } else {
            len
        };
        let line = slice_subrange(database, pos, stop);
        proof {
            let raw = text.take(end - pos);
            assert(raw =~= database@.subrange(pos as int, end as int));
            if end < len && end > pos {
                assert(raw.last() == database@[end - 1]);
            }
            assert(line@ =~= first_line(text));
            assert(database@.skip(next as int) =~= after_first_line(text));
            assert(done + (seq![line@] + lines_of(after_first_line(text))) =~= done.push(line@)
                + lines_of(after_first_line(text)));
            assert(done.push(line@).drop_last() =~= done);
        }
        match read_line(line) {
            None => {},
            Some((None, _)) => {
                proof {
                    let all = lines_of(database@);
                    assert(all[done.len() as int] == line@);
                    assert(is_malformed(all[done.len() as int]));
                }
                return None;
            },
            Some((Some(n), name)) => {
                if n == id as u64 {
                    found = Vec::new();
                    found.extend_from_slice(name);
                    assert(found@ =~= name@);
                }
            },
        }
        proof {
            assert forall|i: int| 0 <= i < done.push(line@).len() implies !is_malformed(
                #[trigger] done.push(line@)[i],
            ) by {
                if i < done.len() {
                    assert(done.push(line@)[i] == done[i]);
                }
            }
            done = done.push(line@);
        }
        pos = next;
    }
    proof {
        assert(lines_of(database@.skip(pos as int)) =~= Seq::<Seq<u8>>::empty());
        assert(done + Seq::<Seq<u8>>::empty() =~= done);
    }
    Some(found)
}

} // verus!
