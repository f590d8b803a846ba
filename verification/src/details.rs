//! What an election shows to its voters: title, description and the labels
//! of its options, and the framed form in which a record carries them.

use crate::text::{key_bytes, StableString};
use vstd::bytes::*;
use vstd::prelude::*;
use vstd::slice::*;
use vstd::string::*;
use vstd::utf8::*;

verus! {

/// The texts of an election. The options are in the order of their indices.
#[derive(Debug, Clone)]
pub struct ElectionDetails {
    pub title: String,
    pub description: String,
    pub options: Vec<String>,
}

pub ghost struct DetailsView {
    pub title: Seq<char>,
    pub description: Seq<char>,
    pub options: Seq<Seq<char>>,
}

/// The texts that the strings of a vector hold.
pub open spec fn texts_of(strings: Seq<String>) -> Seq<Seq<char>> {
    strings.map_values(|s: String| s@)
}

impl View for ElectionDetails {
    type V = DetailsView;

    open spec fn view(&self) -> DetailsView {
        DetailsView {
            title: self.title@,
            description: self.description@,
            options: texts_of(self.options@),
        }
    }
}

/// The size of the length that stands before each framed item.
pub const FRAME_PREFIX_SIZE: usize = 8;

/// One item with its length before it.
pub open spec fn frame(item: Seq<u8>) -> Seq<u8> {
    spec_u64_to_le_bytes(item.len() as u64) + item
}

/// The items, each framed, one after the other.
pub open spec fn frames(items: Seq<Seq<u8>>) -> Seq<u8>
    decreases items.len(),
{
    if items.len() == 0 {
        Seq::empty()
    } else {
        frames(items.drop_last()) + frame(items.last())
    }
}

/// The items that the bytes frame, if the bytes are frames from end to end.
pub open spec fn unframes(bytes: Seq<u8>) -> Option<Seq<Seq<u8>>>
    decreases bytes.len(),
{
    if bytes.len() == 0 {
        Some(Seq::empty())
    } else if bytes.len() < FRAME_PREFIX_SIZE {
        None
    } else {
        let n = spec_u64_from_le_bytes(bytes.subrange(0, 8)) as int;
        if n > bytes.len() - 8 {
            None
        } else {
            match unframes(bytes.skip(8 + n)) {
                Some(tail) => Some(seq![bytes.subrange(8, 8 + n)] + tail),
                None => None,
            }
        }
    }
}

/// The byte strings that the framed form of the texts holds.
pub open spec fn detail_items(d: DetailsView) -> Seq<Seq<u8>> {
    seq![key_bytes(d.title), key_bytes(d.description)] + d.options.map_values(
        |o: Seq<char>| key_bytes(o),
    )
}

/// The framed form of the texts.
pub open spec fn encode_details_spec(d: DetailsView) -> Seq<u8> {
    frames(detail_items(d))
}

/// Whether every item is well-formed text.
pub open spec fn all_text(items: Seq<Seq<u8>>) -> bool {
    forall|i: int| 0 <= i < items.len() ==> valid_utf8(#[trigger] items[i])
}

/// The texts that the bytes carry, if they are frames of text and hold at
/// least a title and a description.
pub open spec fn decode_details_spec(bytes: Seq<u8>) -> Option<DetailsView> {
    match unframes(bytes) {
        Some(items) => if items.len() >= 2 && all_text(items) {
            Some(
                DetailsView {
                    title: decode_utf8(items[0]),
                    description: decode_utf8(items[1]),
                    options: items.skip(2).map_values(|b: Seq<u8>| decode_utf8(b)),
                },
            )
        } else {
            None
        },
        None => None,
    }
}

/// Frames read back item by item from the front.
pub proof fn lemma_unframes_front(item: Seq<u8>, rest: Seq<u8>)
    requires
        item.len() <= u64::MAX,
    ensures
        unframes(frame(item) + rest) == match unframes(rest) {
            Some(tail) => Some(seq![item] + tail),
            None => None,
        },
{
    lemma_auto_spec_u64_to_from_le_bytes();
    let bytes = frame(item) + rest;
    assert(bytes.subrange(0, 8) =~= spec_u64_to_le_bytes(item.len() as u64));
    assert(bytes.subrange(8, 8 + item.len() as int) =~= item);
    assert(bytes.skip(8 + item.len() as int) =~= rest);
}

/// Framed items followed by more bytes read back as the items and then
/// what the rest reads as.
pub proof fn lemma_unframes_frames(items: Seq<Seq<u8>>, rest: Seq<u8>)
    requires
        forall|i: int| 0 <= i < items.len() ==> (#[trigger] items[i]).len() <= u64::MAX,
    ensures
        unframes(frames(items) + rest) == match unframes(rest) {
            Some(tail) => Some(items + tail),
            None => None,
        },
    decreases items.len(),
{
    if items.len() == 0 {
        assert(frames(items) + rest =~= rest);
        if unframes(rest) is Some {
            assert(items + unframes(rest).unwrap() =~= unframes(rest).unwrap());
        }
    } else {
        let front = items.drop_last();
        let last = items.last();
        assert(frames(items) + rest =~= frames(front) + (frame(last) + rest));
        lemma_unframes_front(last, rest);
        lemma_unframes_frames(front, frame(last) + rest);
        if unframes(rest) is Some {
            let tail = unframes(rest).unwrap();
            assert(front + (seq![last] + tail) =~= items + tail);
        }
    }
}

/// The framed form of the texts reads back as the texts.
pub proof fn lemma_details_roundtrip(d: DetailsView)
    requires
        frameable(d),
    ensures
        decode_details_spec(encode_details_spec(d)) == Some(d),
{
    let items = detail_items(d);
    lemma_unframes_frames(items, Seq::empty());
    assert(frames(items) + Seq::<u8>::empty() =~= frames(items));
    assert(items + Seq::<Seq<u8>>::empty() =~= items);
    encode_utf8_valid_utf8(d.title);
    encode_utf8_valid_utf8(d.description);
    encode_utf8_decode_utf8(d.title);
    encode_utf8_decode_utf8(d.description);
    assert forall|i: int| 0 <= i < items.len() implies valid_utf8(#[trigger] items[i]) by {
        if i >= 2 {
            encode_utf8_valid_utf8(d.options[i - 2]);
        }
    }
    let back = items.skip(2).map_values(|b: Seq<u8>| decode_utf8(b));
    assert forall|i: int| 0 <= i < d.options.len() implies back[i] == d.options[i] by {
        encode_utf8_decode_utf8(d.options[i]);
    }
    assert(back =~= d.options);
}

/// Appends one framed item.
fn push_frame(out: &mut Vec<u8>, item: &str)
    ensures
        final(out)@ == old(out)@ + frame(key_bytes(item@)),
        key_bytes(item@).len() <= usize::MAX,
{
    let mut bytes = item.as_bytes_vec();
    let mut width = u64_to_le_bytes(bytes.len() as u64);
    out.append(&mut width);
    out.append(&mut bytes);
    assert(out@ =~= old(out)@ + frame(key_bytes(item@)));
}

/// Whether every text is short enough for its length to be framed.
pub open spec fn frameable(d: DetailsView) -> bool {
    &&& key_bytes(d.title).len() <= u64::MAX
    &&& key_bytes(d.description).len() <= u64::MAX
    &&& forall|i: int|
        0 <= i < d.options.len() ==> key_bytes(#[trigger] d.options[i]).len() <= u64::MAX
}

/// Writes the framed form of the texts.
pub fn encode_details(details: &ElectionDetails) -> (r: Vec<u8>)
    ensures
        r@ == encode_details_spec(details@),
        decode_details_spec(r@) == Some(details@),
        frameable(details@),
{
    let ghost items = detail_items(details@);
    let mut out: Vec<u8> = Vec::new();
    assert(frames(items.take(0)) =~= out@);
    push_frame(&mut out, details.title.as_str());
    proof {
        assert(items.take(1).drop_last() =~= items.take(0));
        assert(out@ =~= frames(items.take(1)));
    }
    push_frame(&mut out, details.description.as_str());
    proof {
        assert(items.take(2).drop_last() =~= items.take(1));
        assert(out@ =~= frames(items.take(2)));
    }
    let mut i: usize = 0;
    while i < details.options.len()
        invariant
            i <= details.options@.len(),
            items == detail_items(details@),
            items.len() == details.options@.len() + 2,
            out@ == frames(items.take(i + 2)),
            forall|j: int|
                0 <= j < i ==> key_bytes(#[trigger] details@.options[j]).len() <= usize::MAX,
        decreases details.options@.len() - i,
    {
        push_frame(&mut out, details.options[i].as_str());
        proof {
            assert(items.take(i + 3).drop_last() =~= items.take(i + 2));
            assert(items.take(i + 3).last() == key_bytes(details.options@[i as int]@));
        }
        i += 1;
    }
    proof {
        assert(items.take(i + 2) =~= items);
        lemma_details_roundtrip(details@);
    }
    out
}

/// What the whole reads as, given what was read so far and what the rest
/// reads as.
pub open spec fn joined(read: Seq<Seq<u8>>, rest: Option<Seq<Seq<u8>>>) -> Option<Seq<Seq<u8>>> {
    match rest {
        Some(tail) => Some(read + tail),
        None => None,
    }
}

/// Reads the texts back from their framed form.
pub fn decode_details(bytes: &Vec<u8>) -> (r: Option<ElectionDetails>)
    ensures
        r is Some <==> decode_details_spec(bytes@) is Some,
        r matches Some(d) ==> decode_details_spec(bytes@) == Some(d@),
{
    let all = bytes.as_slice();
    let mut texts: Vec<String> = Vec::new();
    let ghost mut read: Seq<Seq<u8>> = Seq::empty();
    let mut pos: usize = 0;
    assert(bytes@.skip(0) =~= bytes@);
    assert(read + unframes(bytes@).unwrap() =~= unframes(bytes@).unwrap());
    while pos < bytes.len()
        invariant
            pos <= bytes@.len(),
            all@ == bytes@,
            unframes(bytes@) == joined(read, unframes(bytes@.skip(pos as int))),
            read.len() == texts@.len(),
            forall|i: int| 0 <= i < read.len() ==> key_bytes(texts@[i]@) == #[trigger] read[i],
        decreases bytes@.len() - pos,
    {
        let ghost rest = bytes@.skip(pos as int);
        if bytes.len() - pos < FRAME_PREFIX_SIZE {
            return None;
        }
        let n = u64_from_le_bytes(slice_subrange(all, pos, pos + 8));
        assert(rest.subrange(0, 8) =~= bytes@.subrange(pos as int, pos + 8));
        if n > (bytes.len() - pos - 8) as u64 {
            return None;
        }
        let end = pos + 8 + n as usize;
        let item = slice_to_vec(slice_subrange(all, pos + 8, end));
        proof {
            assert(rest.subrange(8, 8 + n) =~= item@);
            assert(rest.skip(8 + n) =~= bytes@.skip(end as int));
        }
        let ghost tail = unframes(bytes@.skip(end as int));
        match StableString::from_bytes(item) {
            Some(text) => {
                proof {
                    if tail is Some {
                        assert(read + (seq![item@] + tail.unwrap()) =~= read.push(item@)
                            + tail.unwrap());
                    }
                    read = read.push(item@);
                }
                texts.push(text.into_string());
            },
            None => {
                proof {
                    if tail is Some {
                        let items = read + (seq![item@] + tail.unwrap());
                        assert(items[read.len() as int] == item@);
                        assert(!all_text(items));
                    }
                }
                return None;
            },
        }
        pos = end;
    }
    proof {
        assert(bytes@.skip(pos as int) =~= Seq::<u8>::empty());
        assert(read + Seq::<Seq<u8>>::empty() =~= read);
        assert forall|i: int| 0 <= i < read.len() implies valid_utf8(#[trigger] read[i])
            && decode_utf8(read[i]) == texts@[i]@ by {
            encode_utf8_valid_utf8(texts@[i]@);
            encode_utf8_decode_utf8(texts@[i]@);
        }
    }
    if texts.len() < 2 {
        return None;
    }
    let mut options: Vec<String> = Vec::new();
    let mut i: usize = 2;
    while i < texts.len()
        invariant
            2 <= i <= texts@.len(),
            options@.len() == i - 2,
            forall|j: int| 0 <= j < options@.len() ==> (#[trigger] options@[j])@ == texts@[j + 2]@,
        decreases texts@.len() - i,
    {
        options.push(texts[i].clone());
        i += 1;
    }
    let details = ElectionDetails {
        title: texts[0].clone(),
        description: texts[1].clone(),
        options,
    };
    proof {
        let want = decode_details_spec(bytes@).unwrap();
        assert(details@.options =~= want.options);
    }
    Some(details)
}

} // verus!
