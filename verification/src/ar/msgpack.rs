//! The self-describing values that a header is made of, and their
//! MessagePack encoding by `rmpv`.

use vstd::prelude::*;

verus! {

/// A self-describing value: what a header holds before it is turned into
/// bytes and after it is read back.
#[derive(Debug)]
pub enum Datum {
    /// Nil represents nil.
    Nil,
    /// Boolean represents true or false.
    Bool(bool),
    /// An integer that is not negative.
    UInt(u64),
    /// A UTF-8 string.
    Text(String),
    /// A byte array.
    Bytes(Vec<u8>),
    /// A sequence of values.
    List(Vec<Datum>),
    /// Key-value pairs, in the order in which they are stored.
    Table(Vec<(Datum, Datum)>),
    /// Anything else that a stream may hold: a negative or floating point
    /// number, an extension, a string that is not UTF-8. It is written as nil.
    Other,
}

/// What a [Datum] holds, as plain values.
pub enum DatumView {
    Nil,
    Bool(bool),
    UInt(u64),
    Text(Seq<char>),
    Bytes(Seq<u8>),
    List(Seq<DatumView>),
    Table(Seq<(DatumView, DatumView)>),
    Other,
}

/// The model of a sequence of values.
pub open spec fn list_model(items: Seq<Datum>) -> Seq<DatumView>
    decreases items,
{
    Seq::new(
        items.len(),
        |i: int|
            if 0 <= i < items.len() {
                datum_model(items[i])
            } else {
                arbitrary()
            },
    )
}

/// The model of a sequence of key-value pairs.
pub open spec fn table_model(pairs: Seq<(Datum, Datum)>) -> Seq<(DatumView, DatumView)>
    decreases pairs,
{
    Seq::new(
        pairs.len(),
        |i: int|
            if 0 <= i < pairs.len() {
                (datum_model(pairs[i].0), datum_model(pairs[i].1))
            } else {
                arbitrary()
            },
    )
}

/// The model of a value.
pub open spec fn datum_model(datum: Datum) -> DatumView
    decreases datum,
{
    match datum {
        Datum::Nil => DatumView::Nil,
        Datum::Bool(b) => DatumView::Bool(b),
        Datum::UInt(n) => DatumView::UInt(n),
        Datum::Text(s) => DatumView::Text(s@),
        Datum::Bytes(b) => DatumView::Bytes(b@),
        Datum::List(items) => DatumView::List(list_model(items@)),
        Datum::Table(pairs) => DatumView::Table(table_model(pairs@)),
        Datum::Other => DatumView::Other,
    }
}

impl View for Datum {
    type V = DatumView;

    open spec fn view(&self) -> DatumView {
        datum_model(*self)
    }
}

/// How deep the reader goes into the deepest of some values.
pub open spec fn deepest(items: Seq<DatumView>) -> nat
    decreases items,
{
    if items.len() == 0 {
        0
    } else {
        let front = deepest(items.drop_last());
        let last = depth_of(items.last());
        if front < last {
            last
        } else {
            front
        }
    }
}

/// How deep the reader goes into the deepest of the keys and values of some
/// pairs.
pub open spec fn deepest_pair(pairs: Seq<(DatumView, DatumView)>) -> nat
    decreases pairs,
{
    if pairs.len() == 0 {
        0
    } else {
        let front = deepest_pair(pairs.drop_last());
        let key = depth_of(pairs.last().0);
        let value = depth_of(pairs.last().1);
        let last = if key < value {
            value
        } else {
            key
        };
        if front < last {
            last
        } else {
            front
        }
    }
}

/// A bound on how deep the reader goes into a value: three steps for a
/// value that holds no other, and two more than for the deepest value in it
/// for a list or a table.
pub open spec fn depth_of(value: DatumView) -> nat
    decreases value,
{
    match value {
        DatumView::List(items) => 2 + deepest(items),
        DatumView::Table(pairs) => 2 + deepest_pair(pairs),
        _ => 3,
    }
}

/// Whether the encoding has room for every length in a value and for what
/// the value holds: no string of more than `u32::MAX` bytes, no byte array,
/// list or table of more than `u32::MAX` elements, and nothing that a
/// [Datum] holds only as [Datum::Other].
pub open spec fn fits(value: DatumView) -> bool
    decreases value,
{
    match value {
        DatumView::Nil => true,
        DatumView::Bool(_) => true,
        DatumView::UInt(_) => true,
        DatumView::Text(text) => 4 * text.len() <= u32::MAX,
        DatumView::Bytes(bytes) => bytes.len() <= u32::MAX,
        DatumView::List(items) => items.len() <= u32::MAX && forall|i: int|
            0 <= i < items.len() ==> fits(#[trigger] items[i]),
        DatumView::Table(pairs) => pairs.len() <= u32::MAX && forall|i: int|
            0 <= i < pairs.len() ==> fits((#[trigger] pairs[i]).0) && fits(pairs[i].1),
        DatumView::Other => false,
    }
}

/// The deepest that the reader goes into a value.
pub const MAX_DEPTH: usize = 1024;

/// Whether a value is read back from its encoding: the encoding has room
/// for it, and the reader goes deep enough.
pub open spec fn reads_back(value: DatumView) -> bool {
    fits(value) && depth_of(value) <= MAX_DEPTH
}

/// The reader goes no deeper than a bound into some values just where it
/// goes no deeper into each of them.
pub proof fn lemma_deepest(items: Seq<DatumView>, bound: nat)
    ensures
        deepest(items) <= bound <==> forall|i: int|
            0 <= i < items.len() ==> depth_of(#[trigger] items[i]) <= bound,
    decreases items.len(),
{
    if items.len() > 0 {
        let front = items.drop_last();
        lemma_deepest(front, bound);
        if deepest(items) <= bound {
            assert forall|i: int| 0 <= i < items.len() implies depth_of(#[trigger] items[i])
                <= bound by {
                if i < front.len() {
                    assert(front[i] == items[i]);
                }
            }
        } else if deepest(front) > bound {
            let i = choose|i: int| 0 <= i < front.len() && depth_of(#[trigger] front[i]) > bound;
            assert(front[i] == items[i]);
        } else {
            assert(depth_of(items[items.len() - 1]) > bound);
        }
    }
}

/// The same of the keys and values of some pairs.
pub proof fn lemma_deepest_pair(pairs: Seq<(DatumView, DatumView)>, bound: nat)
    ensures
        deepest_pair(pairs) <= bound <==> forall|i: int|
            0 <= i < pairs.len() ==> depth_of((#[trigger] pairs[i]).0) <= bound && depth_of(
                pairs[i].1,
            ) <= bound,
    decreases pairs.len(),
{
    if pairs.len() > 0 {
        let front = pairs.drop_last();
        lemma_deepest_pair(front, bound);
        if deepest_pair(pairs) <= bound {
            assert forall|i: int| 0 <= i < pairs.len() implies depth_of((#[trigger] pairs[i]).0)
                <= bound && depth_of(pairs[i].1) <= bound by {
                if i < front.len() {
                    assert(front[i] == pairs[i]);
                }
            }
        } else if deepest_pair(front) > bound {
            let i = choose|i: int|
                0 <= i < front.len() && !(depth_of((#[trigger] front[i]).0) <= bound && depth_of(
                    front[i].1,
                ) <= bound);
            assert(front[i] == pairs[i]);
        } else {
            let last = pairs[pairs.len() - 1];
            assert(depth_of(last.0) > bound || depth_of(last.1) > bound);
        }
    }
}

impl Datum {
    /// Whether the encoding has room for every length in this value and
    /// for what it holds.
    pub fn fits_encoding(&self) -> (ok: bool)
        ensures
            ok == fits(self@),
        decreases self,
    {
        match self {
            Datum::Nil => true,
            Datum::Bool(_) => true,
            Datum::UInt(_) => true,
            Datum::Text(text) => text.as_str().unicode_len() <= 0x3fff_ffff,
            Datum::Bytes(bytes) => bytes.len() as u64 <= u32::MAX as u64,
            Datum::List(items) => {
                if items.len() as u64 > u32::MAX as u64 {
                    return false;
                }
                let ghost views = list_model(items@);
                let mut i: usize = 0;
                while i < items.len()
                    invariant
                        i <= items@.len(),
                        views == list_model(items@),
                        self@ == DatumView::List(views),
                        views.len() <= u32::MAX,
                        decreases_to!(self => items@),
                        forall|k: int| 0 <= k < i ==> fits(#[trigger] views[k]),
                    decreases items@.len() - i,
                {
                    assert(views[i as int] == items@[i as int]@);
                    if !items[i].fits_encoding() {
                        return false;
                    }
                    i += 1;
                }
                true
            },
            Datum::Table(pairs) => {
                if pairs.len() as u64 > u32::MAX as u64 {
                    return false;
                }
                let ghost views = table_model(pairs@);
                let mut i: usize = 0;
                while i < pairs.len()
                    invariant
                        i <= pairs@.len(),
                        views == table_model(pairs@),
                        self@ == DatumView::Table(views),
                        views.len() <= u32::MAX,
                        decreases_to!(self => pairs@),
                        forall|k: int|
                            0 <= k < i ==> fits((#[trigger] views[k]).0) && fits(views[k].1),
                    decreases pairs@.len() - i,
                {
                    assert(views[i as int] == (pairs@[i as int].0@, pairs@[i as int].1@));
                    if !pairs[i].0.fits_encoding() {
                        assert(!fits(views[i as int].0));
                        return false;
                    }
                    if !pairs[i].1.fits_encoding() {
                        assert(!fits(views[i as int].1));
                        return false;
                    }
                    i += 1;
                }
                true
            },
            Datum::Other => false,
        }
    }

    /// Whether the reader goes no deeper than `bound` into this value.
    pub fn within_depth(&self, bound: usize) -> (ok: bool)
        ensures
            ok == (depth_of(self@) <= bound),
        decreases self,
    {
        match self {
            Datum::List(items) => {
                if bound < 2 {
                    return false;
                }
                let ghost views = list_model(items@);
                let mut i: usize = 0;
                while i < items.len()
                    invariant
                        i <= items@.len(),
                        bound >= 2,
                        views == list_model(items@),
                        self@ == DatumView::List(views),
                        decreases_to!(self => items@),
                        forall|k: int| 0 <= k < i ==> depth_of(#[trigger] views[k]) <= bound - 2,
                    decreases items@.len() - i,
                {
                    assert(views[i as int] == items@[i as int]@);
                    if !items[i].within_depth(bound - 2) {
                        proof {
                            lemma_deepest(views, (bound - 2) as nat);
                        }
                        return false;
                    }
                    i += 1;
                }
                proof {
                    lemma_deepest(views, (bound - 2) as nat);
                }
                true
            },
            Datum::Table(pairs) => {
                if bound < 2 {
                    return false;
                }
                let ghost views = table_model(pairs@);
                let mut i: usize = 0;
                while i < pairs.len()
                    invariant
                        i <= pairs@.len(),
                        bound >= 2,
                        views == table_model(pairs@),
                        self@ == DatumView::Table(views),
                        decreases_to!(self => pairs@),
                        forall|k: int|
                            0 <= k < i ==> depth_of((#[trigger] views[k]).0) <= bound - 2
                                && depth_of(views[k].1) <= bound - 2,
                    decreases pairs@.len() - i,
                {
                    assert(views[i as int] == (pairs@[i as int].0@, pairs@[i as int].1@));
                    let key = pairs[i].0.within_depth(bound - 2);
                    let value = pairs[i].1.within_depth(bound - 2);
                    if !key || !value {
                        proof {
                            lemma_deepest_pair(views, (bound - 2) as nat);
                        }
                        return false;
                    }
                    i += 1;
                }
                proof {
                    lemma_deepest_pair(views, (bound - 2) as nat);
                }
                true
            },
            _ => bound >= 3,
        }
    }

    /// Whether this value is read back from its encoding.
    pub fn is_read_back(&self) -> (ok: bool)
        ensures
            ok == reads_back(self@),
    {
        self.fits_encoding() && self.within_depth(MAX_DEPTH)
    }
}

#[verifier::external_type_specification]
#[verifier::external_body]
pub struct ExOutsideValue(rmpv::Value);

#[verifier::external_type_specification]
#[verifier::external_body]
pub struct ExDecodeError(rmpv::decode::Error);

/// The MessagePack bytes that `rmpv::encode::write_value` writes for a value.
pub uninterp spec fn msgpack_encoded(value: DatumView) -> Seq<u8>;

/// The value that `rmpv::decode::read_value` reads from the front of
/// `bytes`, where it reads one.
pub uninterp spec fn msgpack_decoded(bytes: Seq<u8>) -> Option<DatumView>;

/// The `rmpv::Value` that holds what a [Datum] holds.
#[verifier::external_body]
fn lower(datum: &Datum) -> rmpv::Value {
    match datum {
        Datum::Bool(b) => rmpv::Value::Boolean(*b),
        Datum::UInt(n) => rmpv::Value::from(*n),
        Datum::Text(s) => rmpv::Value::from(s.as_str()),
        Datum::Bytes(b) => rmpv::Value::Binary(b.clone()),
        Datum::List(a) => rmpv::Value::Array(a.iter().map(lower).collect()),
        Datum::Table(m) => rmpv::Value::Map(m.iter().map(|(k, v)| (lower(k), lower(v))).collect()),
        _ => rmpv::Value::Nil,
    }
}

/// The [Datum] that holds what an `rmpv::Value` holds.
#[verifier::external_body]
fn lift(value: rmpv::Value) -> Datum {
    match value {
        rmpv::Value::Nil => Datum::Nil,
        rmpv::Value::Boolean(b) => Datum::Bool(b),
        rmpv::Value::Integer(n) => n.as_u64().map_or(Datum::Other, Datum::UInt),
        rmpv::Value::String(s) => s.into_str().map_or(Datum::Other, Datum::Text),
        rmpv::Value::Binary(b) => Datum::Bytes(b),
        rmpv::Value::Array(a) => Datum::List(a.into_iter().map(lift).collect()),
        rmpv::Value::Map(m) => Datum::Table(m.into_iter().map(|(k, v)| (lift(k), lift(v))).collect()),
        _ => Datum::Other,
    }
}

/// `rmpv::encode::write_value` into a vector: the MessagePack encoding of
/// the value. Only the writer can make it fail, and a vector does not; the
/// error it would give is handed on as the I/O error inside it.
#[verifier::external_body]
pub(crate) fn write_datum(datum: &Datum) -> (bytes: Result<Vec<u8>, std::io::Error>)
    ensures
        bytes is Ok,
        bytes->Ok_0@ == msgpack_encoded(datum@),
{
    let mut out = Vec::new();
    match rmpv::encode::write_value(&mut out, &lower(datum)) {
        Ok(()) => Ok(out),
        Err(e) => Err(std::io::Error::from(e)),
    }
}

/// `rmpv::decode::read_value` on a byte slice: the value that the bytes
/// start with; what follows it is not looked at. It undoes
/// `rmpv::encode::write_value`: the encoding of a value is read as that
/// value, where the encoding has room for the value and the value is not
/// nested deeper than the reader goes, which is 1024 steps.
#[verifier::external_body]
pub(crate) fn read_datum(bytes: &[u8]) -> (datum: Result<Datum, rmpv::decode::Error>)
    ensures
        match datum {
            Ok(datum) => msgpack_decoded(bytes@) == Some(datum@),
            Err(_) => msgpack_decoded(bytes@) is None,
        },
        forall|value: DatumView|
            reads_back(value) && bytes@ == #[trigger] msgpack_encoded(value) ==> datum is Ok
                && datum->Ok_0@ == value,
{
    let mut rest = bytes;
    rmpv::decode::read_value(&mut rest).map(lift)
}

} // verus!
