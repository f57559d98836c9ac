//! Bencode: values, their parsing, and the encoding of numbers, byte strings and text.

use vstd::prelude::*;
use vstd::utf8::encode_utf8;
use crate::keyed::entry_map;
use crate::text::{decimal_bytes, push_decimal_bytes};

verus! {

/// Starts a number: `i`.
pub const INT: u8 = 0x69;

/// Starts a list: `l`.
pub const LIST: u8 = 0x6c;

/// Starts a dictionary: `d`.
pub const DICT: u8 = 0x64;

/// Ends a number, a list or a dictionary: `e`.
pub const END: u8 = 0x65;

/// Stands between the length of a byte string and its bytes: `:`.
pub const COLON: u8 = 0x3a;

/// A number in bencode: `i<digits>e`.
pub open spec fn encoded_number(n: nat) -> Seq<u8> {
    seq![INT] + decimal_bytes(n) + seq![END]
}

/// A byte string in bencode: `<length>:<bytes>`.
pub open spec fn encoded_bytes(bytes: Seq<u8>) -> Seq<u8> {
    decimal_bytes(bytes.len()) + seq![COLON] + bytes
}

/// A text in bencode: the byte string of its UTF-8 form.
pub open spec fn encoded_text(text: Seq<char>) -> Seq<u8> {
    encoded_bytes(encode_utf8(text))
}

/// Appends `n` in bencode.
pub fn push_number(out: &mut Vec<u8>, n: u64)
    ensures
        final(out)@ == old(out)@ + encoded_number(n as nat),
{
    out.push(INT);
    push_decimal_bytes(out, n);
    out.push(END);
    assert(out@ =~= old(out)@ + encoded_number(n as nat));
}

/// Appends `bytes` in bencode.
pub fn push_bytes(out: &mut Vec<u8>, bytes: &[u8])
    ensures
        final(out)@ == old(out)@ + encoded_bytes(bytes@),
{
    push_decimal_bytes(out, bytes.len() as u64);
    out.push(COLON);
    out.extend_from_slice(bytes);
    assert(out@ =~= old(out)@ + encoded_bytes(bytes@));
}

/// Appends `text` in bencode.
pub fn push_text(out: &mut Vec<u8>, text: &str)
    ensures
        final(out)@ == old(out)@ + encoded_text(text@),
{
    push_bytes(out, text.as_bytes());
}

/// A bencoded value. The keys of a dictionary stand in no particular order.
#[derive(Debug)]
pub enum Bencode {
    Int(i64),
    Str(Vec<u8>),
    List(Vec<Bencode>),
    Dict(Vec<(Vec<u8>, Bencode)>),
}

/// A bencoded value, over plain values.
pub enum BencodeView {
    Int(i64),
    Str(Seq<u8>),
    List(Seq<BencodeView>),
    Dict(Map<Seq<u8>, BencodeView>),
}

/// The values of a list.
pub open spec fn list_view(items: Seq<Bencode>) -> Seq<BencodeView>
    decreases items,
{
    if items.len() == 0 {
        Seq::empty()
    } else {
        list_view(items.drop_last()).push(items[items.len() - 1].view())
    }
}

/// The keys and values of a dictionary.
pub open spec fn entries_view(entries: Seq<(Vec<u8>, Bencode)>) -> Seq<(Seq<u8>, BencodeView)>
    decreases entries,
{
    if entries.len() == 0 {
        Seq::empty()
    } else {
        let last = entries[entries.len() - 1];
        entries_view(entries.drop_last()).push((last.0@, last.1.view()))
    }
}

impl Bencode {
    /// The value, over plain values. Of entries with one key the last one counts.
    pub open spec fn view(&self) -> BencodeView
        decreases self,
    {
        match self {
            Bencode::Int(n) => BencodeView::Int(*n),
            Bencode::Str(bytes) => BencodeView::Str(bytes@),
            Bencode::List(items) => BencodeView::List(list_view(items@)),
            Bencode::Dict(entries) => BencodeView::Dict(entry_map(entries_view(entries@))),
        }
    }
}

/// `serde_bencode::value::Value`: a bencoded value as that crate holds it.
#[verifier::external_type_specification]
#[verifier::external_body]
pub struct ExBencodeValue(serde_bencode::value::Value);

/// The plain values that a `serde_bencode::value::Value` holds.
pub uninterp spec fn contents(value: serde_bencode::value::Value) -> BencodeView;

/// The value that `serde_bencode::from_bytes` reads off the front of `bytes`; `None` where it
/// fails.
pub uninterp spec fn bencode_parse(bytes: Seq<u8>) -> Option<BencodeView>;

/// One level of a bencoded value.
enum Layer {
    Int(i64),
    Str(Vec<u8>),
    List(Vec<serde_bencode::value::Value>),
    Dict(Vec<(Vec<u8>, serde_bencode::value::Value)>),
}

/// Whether `layer` is the outermost level of `value`.
spec fn is_layer_of(layer: Layer, value: BencodeView) -> bool {
    match (layer, value) {
        (Layer::Int(n), BencodeView::Int(m)) => n == m,
        (Layer::Str(bytes), BencodeView::Str(other)) => bytes@ == other,
        (Layer::List(items), BencodeView::List(views)) => {
            &&& items@.len() == views.len()
            &&& forall|i: int|
                0 <= i < items@.len() ==> contents(#[trigger] items@[i]) == views[i]
        },
        (Layer::Dict(entries), BencodeView::Dict(map)) => {
            &&& map.dom().finite()
            &&& entry_map(value_entries(entries@)) == map
            &&& forall|i: int|
                0 <= i < entries@.len() ==> map.dom().contains((#[trigger] entries@[i]).0@)
                    && map[entries@[i].0@] == contents(entries@[i].1)
        },
        _ => false,
    }
}

spec fn value_entries(entries: Seq<(Vec<u8>, serde_bencode::value::Value)>) -> Seq<
    (Seq<u8>, BencodeView),
> {
    Seq::new(entries.len(), |i: int| (entries[i].0@, contents(entries[i].1)))
}

/// `serde_bencode::from_bytes` for `serde_bencode::value::Value`: reads one value off the front
/// of `bytes`; what follows it is not looked at. The value is named; of a failure only that there
/// is one is stated, not its words. It recurses into lists and dictionaries, as deep as the stack
/// allows.
#[verifier::external_body]
fn parse_value(bytes: &[u8]) -> (result: std::result::Result<
    serde_bencode::value::Value,
    String,
>)
    ensures
        match result {
            Ok(value) => bencode_parse(bytes@) == Some(contents(value)),
            Err(_) => bencode_parse(bytes@) is None,
        },
{
    serde_bencode::from_bytes(bytes).map_err(|error| error.to_string())
}

/// Whether `serde_bencode::from_bytes` can read a value that nobody looks at off the front of
/// `bytes`.
pub uninterp spec fn bencode_readable(bytes: Seq<u8>) -> bool;

/// `serde_bencode::from_bytes` for `serde::de::IgnoredAny`: reads one value off the front of
/// `bytes` and drops it. Unlike a `serde_bencode::value::Value`, it may hold dictionaries whose
/// keys are values of any kind. Whether it can be read is named; the words of a failure are not
/// stated. It recurses into lists and dictionaries, as deep as the stack allows.
#[verifier::external_body]
pub(crate) fn skim(bytes: &[u8]) -> (result: std::result::Result<(), String>)
    ensures
        result is Ok == bencode_readable(bytes@),
{
    serde_bencode::from_bytes::<serde::de::IgnoredAny>(bytes).map(|_| ()).map_err(
        |error| error.to_string(),
    )
}

/// The variants of `serde_bencode::value::Value` with what they hold. A dictionary is a
/// `HashMap` there; its entries come out in no particular order, each key once.
#[verifier::external_body]
fn open_value(value: serde_bencode::value::Value) -> (layer: Layer)
    ensures
        is_layer_of(layer, contents(value)),
{
    match value {
        serde_bencode::value::Value::Int(n) => Layer::Int(n),
        serde_bencode::value::Value::Bytes(bytes) => Layer::Str(bytes),
        serde_bencode::value::Value::List(items) => Layer::List(items),
        serde_bencode::value::Value::Dict(entries) => Layer::Dict(entries.into_iter().collect()),
    }
}

/// The value with all that it holds.
fn read_value(value: serde_bencode::value::Value) -> (read: Bencode)
    ensures
        read.view() == contents(value),
    decreases contents(value),
{
    let ghost whole = contents(value);
    match open_value(value) {
        Layer::Int(n) => Bencode::Int(n),
        Layer::Str(bytes) => Bencode::Str(bytes),
        Layer::List(items) => {
            let ghost views = whole->List_0;
            let ghost all = items@;
            let mut rest = items;
            let mut reversed: Vec<Bencode> = Vec::new();
            while rest.len() > 0
                invariant
                    whole == contents(value),
                    whole == BencodeView::List(views),
                    views.len() == all.len(),
                    forall|i: int| 0 <= i < all.len() ==> contents(#[trigger] all[i]) == views[i],
                    rest@ == all.take(rest@.len() as int),
                    rest@.len() + reversed@.len() == all.len(),
                    forall|i: int|
                        0 <= i < reversed@.len() ==> (#[trigger] reversed@[i]).view()
                            == views[all.len() - 1 - i],
                decreases rest@.len(),
            {
                match rest.pop() {
                    Some(item) => {
                        assert(item == all[rest@.len() as int]);
                        assert(decreases_to!(whole => whole->List_0));
                        assert(decreases_to!(views => views[rest@.len() as int]));
                        reversed.push(read_value(item));
                    },
                    None => {},
                }
            }
            let read: Vec<Bencode> = reverse(reversed);
            proof {
                lemma_list_view(read@);
                assert forall|i: int| 0 <= i < views.len() implies list_view(read@)[i]
                    == views[i] by {
                    assert(read@[i].view() == views[i]);
                }
                assert(list_view(read@) =~= views);
            }
            Bencode::List(read)
        },
        Layer::Dict(entries) => {
            let ghost map = whole->Dict_0;
            let ghost all = entries@;
            let mut rest = entries;
            let mut reversed: Vec<(Vec<u8>, Bencode)> = Vec::new();
            while rest.len() > 0
                invariant
                    whole == contents(value),
                    whole == BencodeView::Dict(map),
                    map.dom().finite(),
                    forall|i: int|
                        0 <= i < all.len() ==> map.dom().contains((#[trigger] all[i]).0@)
                            && map[all[i].0@] == contents(all[i].1),
                    rest@ == all.take(rest@.len() as int),
                    rest@.len() + reversed@.len() == all.len(),
                    forall|i: int|
                        0 <= i < reversed@.len() ==> (#[trigger] reversed@[i]).0@ == all[all.len()
                            - 1 - i].0@ && reversed@[i].1.view() == contents(
                            all[all.len() - 1 - i].1,
                        ),
                decreases rest@.len(),
            {
                match rest.pop() {
                    Some((key, item)) => {
                        assert((key, item) == all[rest@.len() as int]);
                        assert(map.dom().contains(key@));
                        assert(decreases_to!(whole => whole->Dict_0));
                        assert(decreases_to!(map => map[key@]));
                        reversed.push((key, read_value(item)));
                    },
                    None => {},
                }
            }
            let read: Vec<(Vec<u8>, Bencode)> = reverse(reversed);
            proof {
                lemma_entries_view(read@);
                assert(entries_view(read@) =~= value_entries(all));
            }
            Bencode::Dict(read)
        },
    }
}

/// The items in the opposite order.
fn reverse<T>(items: Vec<T>) -> (reversed: Vec<T>)
    ensures
        reversed@.len() == items@.len(),
        forall|i: int|
            0 <= i < items@.len() ==> #[trigger] reversed@[i] == items@[items@.len() - 1 - i],
{
    let ghost all = items@;
    let mut rest = items;
    let mut reversed: Vec<T> = Vec::new();
    while rest.len() > 0
        invariant
            rest@ == all.take(rest@.len() as int),
            rest@.len() + reversed@.len() == all.len(),
            forall|i: int|
                0 <= i < reversed@.len() ==> #[trigger] reversed@[i] == all[all.len() - 1 - i],
        decreases rest@.len(),
    {
        match rest.pop() {
            Some(item) => {
                reversed.push(item);
            },
            None => {},
        }
    }
    reversed
}

/// The view of a list, item by item.
pub proof fn lemma_list_view(items: Seq<Bencode>)
    ensures
        list_view(items).len() == items.len(),
        forall|i: int| 0 <= i < items.len() ==> list_view(items)[i] == #[trigger] items[i].view(),
    decreases items.len(),
{
    if items.len() > 0 {
        lemma_list_view(items.drop_last());
        assert forall|i: int| 0 <= i < items.len() implies list_view(items)[i]
            == #[trigger] items[i].view() by {
            if i < items.len() - 1 {
                assert(items.drop_last()[i].view() == items[i].view());
            }
        }
    }
}

/// The view of dictionary entries, entry by entry.
pub proof fn lemma_entries_view(entries: Seq<(Vec<u8>, Bencode)>)
    ensures
        entries_view(entries).len() == entries.len(),
        forall|i: int|
            0 <= i < entries.len() ==> #[trigger] entries_view(entries)[i] == (
                entries[i].0@,
                entries[i].1.view(),
            ),
    decreases entries.len(),
{
    if entries.len() > 0 {
        lemma_entries_view(entries.drop_last());
        assert forall|i: int| 0 <= i < entries.len() implies #[trigger] entries_view(entries)[i]
            == (entries[i].0@, entries[i].1.view()) by {
            if i < entries.len() - 1 {
                assert(entries.drop_last()[i] == entries[i]);
                assert(entries_view(entries)[i] == entries_view(entries.drop_last())[i]);
            }
        }
    }
}

/// The value under `key`, if there is one.
pub fn lookup<'a>(entries: &'a Vec<(Vec<u8>, Bencode)>, key: &str) -> (found: Option<&'a Bencode>)
    ensures
        ({
            let map = entry_map(entries_view(entries@));
            match found {
                Some(value) => {
                    &&& map.dom().contains(encode_utf8(key@))
                    &&& map[encode_utf8(key@)] == value.view()
                },
                None => !map.dom().contains(encode_utf8(key@)),
            }
        }),
{
    let ghost views = entries_view(entries@);
    let ghost bytes = encode_utf8(key@);
    let mut n: usize = entries.len();
    proof {
        lemma_entries_view(entries@);
        assert(views.take(n as int) =~= views);
    }
    while n > 0
        invariant
            n <= entries@.len(),
            bytes == encode_utf8(key@),
            views == entries_view(entries@),
            views.len() == entries@.len(),
            forall|i: int|
                0 <= i < views.len() ==> #[trigger] views[i] == (
                    entries@[i].0@,
                    entries@[i].1.view(),
                ),
            entry_map(views).dom().contains(bytes) == entry_map(views.take(n as int)).dom().contains(
                bytes,
            ),
            entry_map(views).dom().contains(bytes) ==> entry_map(views)[bytes] == entry_map(
                views.take(n as int),
            )[bytes],
        decreases n,
    {
        assert(views.take(n as int).drop_last() =~= views.take(n - 1));
        assert(views.take(n as int).last() == views[n - 1]);
        if same_bytes(entries[n - 1].0.as_slice(), key.as_bytes()) {
            return Some(&entries[n - 1].1);
        }
        n -= 1;
    }
    assert(views.take(0) =~= Seq::<(Seq<u8>, BencodeView)>::empty());
    None
}

/// Whether two byte strings are the same.
pub fn same_bytes(a: &[u8], b: &[u8]) -> (same: bool)
    ensures
        same == (a@ == b@),
{
    if a.len() != b.len() {
        return false;
    }
    let mut i: usize = 0;
    while i < a.len()
        invariant
            i <= a@.len(),
            a@.len() == b@.len(),
            forall|k: int| 0 <= k < i ==> a@[k] == b@[k],
        decreases a@.len() - i,
    {
        if a[i] != b[i] {
            return false;
        }
        i += 1;
    }
    assert(a@ =~= b@);
    true
}

/// Reads one bencoded value off the front of `bytes`.
pub fn parse(bytes: &[u8]) -> (result: std::result::Result<Bencode, String>)
    ensures
        match result {
            Ok(value) => bencode_parse(bytes@) == Some(value.view()),
            Err(_) => bencode_parse(bytes@) is None,
        },
{
    match parse_value(bytes) {
        Ok(value) => Ok(read_value(value)),
        Err(text) => Err(text),
    }
}

} // verus!
