//! The values of a document: scalars, arrays, dictionaries, references and
//! streams, and the indirect objects that hold them.
use crate::error::{PdfError, Place, ValueKind};
use crate::number::Decimal;
use crate::scan::bytes_eq;
use crate::tokenizer::PDFObjectHeader;
use vstd::prelude::*;

verus! {

/// A dictionary: its entries in the order in which they were put in. A key
/// that was put in again stands for its last value.
#[derive(Debug, PartialEq)]
pub struct PDFDictionary {
    pub entries: Vec<(Vec<u8>, PDFValue)>,
}

/// A stream: the dictionary that describes it and its bytes as they stand in
/// the file.
#[derive(Debug, PartialEq)]
pub struct PDFStream {
    pub dictionary: PDFDictionary,
    pub bytes: Vec<u8>,
}

/// A value of a document.
#[derive(Debug, PartialEq)]
pub enum PDFValue {
    Dictionary(PDFDictionary),
    Boolean(bool),
    Array(Vec<PDFValue>),
    String(Vec<u8>),
    ObjectReference(PDFObjectHeader),
    Number(Decimal),
    Name(Vec<u8>),
    Stream(PDFStream),
    Bytes(Vec<u8>),
    Null,
}

/// A value as a mathematical value: byte strings and arrays are sequences, a
/// dictionary is a map from names to values.
pub enum ValueView {
    Dictionary(Map<Seq<u8>, ValueView>),
    Boolean(bool),
    Array(Seq<ValueView>),
    String(Seq<u8>),
    ObjectReference(PDFObjectHeader),
    Number(Decimal),
    Name(Seq<u8>),
    Stream(Map<Seq<u8>, ValueView>, Seq<u8>),
    Bytes(Seq<u8>),
    Null,
}

/// The map that entries stand for: each key with the value of its last entry.
pub open spec fn entries_view(entries: Seq<(Vec<u8>, PDFValue)>) -> Map<Seq<u8>, ValueView>
    decreases entries, 0int,
{
    if entries.len() == 0 {
        Map::empty()
    } else {
        entries_view(entries.drop_last()).insert(entries.last().0@, value_view(entries.last().1))
    }
}

pub open spec fn values_view(values: Seq<PDFValue>) -> Seq<ValueView>
    decreases values, 0int,
{
    if values.len() == 0 {
        Seq::empty()
    } else {
        values_view(values.drop_last()).push(value_view(values.last()))
    }
}

pub open spec fn value_view(value: PDFValue) -> ValueView
    decreases value, 1int,
{
    match value {
        PDFValue::Dictionary(dictionary) => ValueView::Dictionary(
            entries_view(dictionary.entries@),
        ),
        PDFValue::Boolean(b) => ValueView::Boolean(b),
        PDFValue::Array(values) => ValueView::Array(values_view(values@)),
        PDFValue::String(bytes) => ValueView::String(bytes@),
        PDFValue::ObjectReference(header) => ValueView::ObjectReference(header),
        PDFValue::Number(number) => ValueView::Number(number),
        PDFValue::Name(name) => ValueView::Name(name@),
        PDFValue::Stream(stream) => ValueView::Stream(
            entries_view(stream.dictionary.entries@),
            stream.bytes@,
        ),
        PDFValue::Bytes(bytes) => ValueView::Bytes(bytes@),
        PDFValue::Null => ValueView::Null,
    }
}

impl View for PDFDictionary {
    type V = Map<Seq<u8>, ValueView>;

    open spec fn view(&self) -> Map<Seq<u8>, ValueView> {
        entries_view(self.entries@)
    }
}

impl View for PDFValue {
    type V = ValueView;

    open spec fn view(&self) -> ValueView {
        value_view(*self)
    }
}

/// A stream as a mathematical value.
pub struct StreamView {
    pub dictionary: Map<Seq<u8>, ValueView>,
    pub bytes: Seq<u8>,
}

impl View for PDFStream {
    type V = StreamView;

    open spec fn view(&self) -> StreamView {
        StreamView { dictionary: self.dictionary@, bytes: self.bytes@ }
    }
}

pub open spec fn kind_of(value: ValueView) -> ValueKind {
    match value {
        ValueView::Dictionary(_) => ValueKind::Dictionary,
        ValueView::Boolean(_) => ValueKind::Boolean,
        ValueView::Array(_) => ValueKind::Array,
        ValueView::String(_) => ValueKind::String,
        ValueView::ObjectReference(_) => ValueKind::ObjectReference,
        ValueView::Number(_) => ValueKind::Number,
        ValueView::Name(_) => ValueKind::Name,
        ValueView::Stream(_, _) => ValueKind::Stream,
        ValueView::Bytes(_) => ValueKind::Bytes,
        ValueView::Null => ValueKind::Null,
    }
}

/// The values of a sequence, one for one.
pub proof fn lemma_values_view(values: Seq<PDFValue>)
    ensures
        values_view(values).len() == values.len(),
        forall|i: int| 0 <= i < values.len() ==> #[trigger] values_view(values)[i] == value_view(values[i]),
    decreases values.len(),
{
    if values.len() > 0 {
        lemma_values_view(values.drop_last());
    }
}

/// A key that no entry holds is not in the map.
pub proof fn lemma_entries_lack(entries: Seq<(Vec<u8>, PDFValue)>, key: Seq<u8>)
    requires
        forall|i: int| 0 <= i < entries.len() ==> (#[trigger] entries[i]).0@ != key,
    ensures
        !entries_view(entries).dom().contains(key),
    decreases entries.len(),
{
    if entries.len() > 0 {
        lemma_entries_lack(entries.drop_last(), key);
    }
}

/// A key stands for the value of the last entry that holds it.
pub proof fn lemma_entries_last(entries: Seq<(Vec<u8>, PDFValue)>, key: Seq<u8>, at: int)
    requires
        0 <= at < entries.len(),
        entries[at].0@ == key,
        forall|i: int| at < i < entries.len() ==> (#[trigger] entries[i]).0@ != key,
    ensures
        entries_view(entries).dom().contains(key),
        entries_view(entries)[key] == value_view(entries[at].1),
    decreases entries.len(),
{
    if at < entries.len() - 1 {
        lemma_entries_last(entries.drop_last(), key, at);
    }
}

impl PDFDictionary {
    /// A dictionary without entries.
    pub fn new() -> (r: Self)
        ensures
            r@ == Map::<Seq<u8>, ValueView>::empty(),
            r.entries@.len() == 0,
    {
        PDFDictionary { entries: Vec::new() }
    }

    /// Puts `value` under `key`, in place of what stood there.
    pub fn insert(&mut self, key: Vec<u8>, value: PDFValue)
        ensures
            final(self)@ == old(self)@.insert(key@, value@),
            final(self).entries@ == old(self).entries@.push((key, value)),
    {
        let ghost before = self.entries@;
        self.entries.push((key, value));
        assert(self.entries@.drop_last() =~= before);
    }

    /// The value under `key`.
    pub fn get(&self, key: &[u8]) -> (r: Option<&PDFValue>)
        ensures
            r is Some <==> self@.dom().contains(key@),
            r matches Some(value) ==> value@ == self@[key@],
    {
        let mut i: usize = self.entries.len();
        while i > 0
            invariant
                i <= self.entries@.len(),
                forall|j: int| i <= j < self.entries@.len() ==> (#[trigger] self.entries@[j]).0@
                    != key@,
            decreases i,
        {
            i = i - 1;
            if bytes_eq(self.entries[i].0.as_slice(), key) {
                proof {
                    lemma_entries_last(self.entries@, key@, i as int);
                }
                return Some(&self.entries[i].1);
            }
        }
        proof {
            lemma_entries_lack(self.entries@, key@);
        }
        None
    }
}

impl PDFValue {
    /// What kind of value this is.
    pub fn kind(&self) -> (r: ValueKind)
        ensures
            r == kind_of(self@),
    {
        match self {
            PDFValue::Dictionary(_) => ValueKind::Dictionary,
            PDFValue::Boolean(_) => ValueKind::Boolean,
            PDFValue::Array(_) => ValueKind::Array,
            PDFValue::String(_) => ValueKind::String,
            PDFValue::ObjectReference(_) => ValueKind::ObjectReference,
            PDFValue::Number(_) => ValueKind::Number,
            PDFValue::Name(_) => ValueKind::Name,
            PDFValue::Stream(_) => ValueKind::Stream,
            PDFValue::Bytes(_) => ValueKind::Bytes,
            PDFValue::Null => ValueKind::Null,
        }
    }

    /// The reference that this value is.
    pub fn object_reference(&self) -> (r: &PDFObjectHeader)
        requires
            self is ObjectReference,
        ensures
            self@ == ValueView::ObjectReference(*r),
    {
        match self {
            PDFValue::ObjectReference(header) => header,
            _ => vstd::pervasive::unreached(),
        }
    }

    /// The dictionary that this value is.
    pub fn dictionary(&self) -> (r: Result<&PDFDictionary, PdfError>)
        ensures
            match r {
                Ok(dictionary) => self@ == ValueView::Dictionary(dictionary@),
                Err(e) => !(self@ is Dictionary) && e == (PdfError::TypeMismatch {
                    place: Place::Value,
                    expected: ValueKind::Dictionary,
                    got: kind_of(self@),
                }),
            },
    {
        match self {
            PDFValue::Dictionary(dictionary) => Ok(dictionary),
            _ => Err(
                PdfError::TypeMismatch {
                    place: Place::Value,
                    expected: ValueKind::Dictionary,
                    got: self.kind(),
                },
            ),
        }
    }

    /// The stream that this value is.
    pub fn stream(&self) -> (r: Result<&PDFStream, PdfError>)
        ensures
            match r {
                Ok(stream) => self@ == ValueView::Stream(stream@.dictionary, stream@.bytes),
                Err(e) => !(self@ is Stream) && e == (PdfError::TypeMismatch {
                    place: Place::Value,
                    expected: ValueKind::Stream,
                    got: kind_of(self@),
                }),
            },
    {
        match self {
            PDFValue::Stream(stream) => Ok(stream),
            _ => Err(
                PdfError::TypeMismatch {
                    place: Place::Value,
                    expected: ValueKind::Stream,
                    got: self.kind(),
                },
            ),
        }
    }

    /// The array that this value is.
    pub fn array(&self) -> (r: &Vec<PDFValue>)
        requires
            self is Array,
        ensures
            self@ == ValueView::Array(values_view(r@)),
    {
        match self {
            PDFValue::Array(values) => values,
            _ => vstd::pervasive::unreached(),
        }
    }
}

/// A copy of `bytes`.
pub fn clone_bytes(bytes: &Vec<u8>) -> (r: Vec<u8>)
    ensures
        r@ == bytes@,
{
    let r: Vec<u8> = crate::scan::copy_range(bytes.as_slice(), 0, bytes.len());
    assert(bytes@.subrange(0, bytes@.len() as int) =~= bytes@);
    r
}

/// A copy of `dictionary`.
pub fn clone_dictionary(dictionary: &PDFDictionary) -> (r: PDFDictionary)
    ensures
        r@ == dictionary@,
    decreases dictionary, 0int,
{
    let mut entries: Vec<(Vec<u8>, PDFValue)> = Vec::new();
    let mut i: usize = 0;
    assert(dictionary.entries@.take(0) =~= Seq::<(Vec<u8>, PDFValue)>::empty());
    while i < dictionary.entries.len()
        invariant
            i <= dictionary.entries@.len(),
            entries_view(entries@) == entries_view(dictionary.entries@.take(i as int)),
        decreases dictionary.entries@.len() - i,
    {
        let ghost before = entries@;
        let key: Vec<u8> = clone_bytes(&dictionary.entries[i].0);
        let value: PDFValue = clone_value(&dictionary.entries[i].1);
        entries.push((key, value));
        proof {
            assert(entries@.drop_last() =~= before);
            assert(dictionary.entries@.take(i + 1).drop_last() =~= dictionary.entries@.take(
                i as int,
            ));
        }
        i = i + 1;
    }
    assert(dictionary.entries@.take(i as int) =~= dictionary.entries@);
    PDFDictionary { entries }
}

/// A copy of `values`.
pub fn clone_values(values: &Vec<PDFValue>) -> (r: Vec<PDFValue>)
    ensures
        values_view(r@) == values_view(values@),
    decreases values, 0int,
{
    let mut out: Vec<PDFValue> = Vec::new();
    let mut i: usize = 0;
    assert(values@.take(0) =~= Seq::<PDFValue>::empty());
    while i < values.len()
        invariant
            i <= values@.len(),
            values_view(out@) == values_view(values@.take(i as int)),
        decreases values@.len() - i,
    {
        let ghost before = out@;
        let item: PDFValue = clone_value(&values[i]);
        out.push(item);
        proof {
            assert(out@.drop_last() =~= before);
            assert(values@.take(i + 1).drop_last() =~= values@.take(i as int));
        }
        i = i + 1;
    }
    assert(values@.take(i as int) =~= values@);
    out
}

/// A copy of `value`.
pub fn clone_value(value: &PDFValue) -> (r: PDFValue)
    ensures
        r@ == value@,
    decreases value, 1int,
{
    match value {
        PDFValue::Dictionary(dictionary) => PDFValue::Dictionary(clone_dictionary(dictionary)),
        PDFValue::Boolean(b) => PDFValue::Boolean(*b),
        PDFValue::Array(values) => PDFValue::Array(clone_values(values)),
        PDFValue::String(bytes) => PDFValue::String(clone_bytes(bytes)),
        PDFValue::ObjectReference(header) => PDFValue::ObjectReference(*header),
        PDFValue::Number(number) => PDFValue::Number(*number),
        PDFValue::Name(name) => PDFValue::Name(clone_bytes(name)),
        PDFValue::Stream(stream) => PDFValue::Stream(
            PDFStream {
                dictionary: clone_dictionary(&stream.dictionary),
                bytes: clone_bytes(&stream.bytes),
            },
        ),
        PDFValue::Bytes(bytes) => PDFValue::Bytes(clone_bytes(bytes)),
        PDFValue::Null => PDFValue::Null,
    }
}

/// An indirect object: its label, its value, and where its header stands in
/// the file.
#[derive(Debug, PartialEq)]
pub struct PDFObject {
    pub header: PDFObjectHeader,
    pub value: PDFValue,
    pub offset: u64,
}

/// An indirect object as a mathematical value.
pub struct ObjectView {
    pub header: PDFObjectHeader,
    pub value: ValueView,
    pub offset: u64,
}

impl View for PDFObject {
    type V = ObjectView;

    open spec fn view(&self) -> ObjectView {
        ObjectView { header: self.header, value: self.value@, offset: self.offset }
    }
}

impl PDFObject {
    /// A copy of the object.
    pub fn duplicate(&self) -> (r: PDFObject)
        ensures
            r@ == self@,
    {
        PDFObject { header: self.header, value: clone_value(&self.value), offset: self.offset }
    }
}

/// The index of the last of `objects` that is labelled `id`, or -1.
pub open spec fn last_index(objects: Seq<PDFObject>, id: PDFObjectHeader) -> int
    decreases objects.len(),
{
    if objects.len() == 0 {
        -1
    } else if objects.last().header == id {
        objects.len() - 1
    } else {
        last_index(objects.drop_last(), id)
    }
}

/// The map that a list of objects stands for: each label with the last
/// object that bears it.
pub open spec fn objects_view(objects: Seq<PDFObject>) -> Map<PDFObjectHeader, ObjectView>
    decreases objects.len(),
{
    if objects.len() == 0 {
        Map::empty()
    } else {
        objects_view(objects.drop_last()).insert(objects.last().header, objects.last()@)
    }
}

/// A label is in the map where an object bears it, and stands for the last
/// such object.
pub proof fn lemma_last_index(objects: Seq<PDFObject>, id: PDFObjectHeader)
    ensures
        -1 <= last_index(objects, id) < objects.len(),
        last_index(objects, id) >= 0 ==> objects[last_index(objects, id)].header == id,
        forall|i: int|
            last_index(objects, id) < i < objects.len() ==> (#[trigger] objects[i]).header != id,
        objects_view(objects).dom().contains(id) <==> last_index(objects, id) >= 0,
        last_index(objects, id) >= 0 ==> objects_view(objects)[id] == objects[last_index(
            objects,
            id,
        )]@,
    decreases objects.len(),
{
    if objects.len() > 0 {
        lemma_last_index(objects.drop_last(), id);
        if objects.last().header != id {
            assert forall|i: int| last_index(objects, id) < i < objects.len() implies (
            #[trigger] objects[i]).header != id by {
                if i < objects.len() - 1 {
                    assert(objects.drop_last()[i] == objects[i]);
                }
            }
        }
    }
}

/// The indirect objects of a document, in the order in which the file
/// defines them. Where a label is defined again, the later object is the one
/// that the label stands for.
#[derive(Debug, PartialEq)]
pub struct ObjectTable {
    pub objects: Vec<PDFObject>,
}

impl View for ObjectTable {
    type V = Map<PDFObjectHeader, ObjectView>;

    open spec fn view(&self) -> Map<PDFObjectHeader, ObjectView> {
        objects_view(self.objects@)
    }
}

impl ObjectTable {
    pub fn new() -> (r: Self)
        ensures
            r@ == Map::<PDFObjectHeader, ObjectView>::empty(),
    {
        ObjectTable { objects: Vec::new() }
    }

    /// Puts `object` under its label, in place of what stood there.
    pub fn insert(&mut self, object: PDFObject)
        ensures
            final(self)@ == old(self)@.insert(object.header, object@),
    {
        let ghost before = self.objects@;
        self.objects.push(object);
        assert(self.objects@.drop_last() =~= before);
    }

    /// The index of the object that `id` stands for.
    pub fn find(&self, id: &PDFObjectHeader) -> (r: Option<usize>)
        ensures
            r matches Some(i) ==> i == last_index(self.objects@, *id),
            r is None ==> last_index(self.objects@, *id) == -1,
    {
        proof {
            lemma_last_index(self.objects@, *id);
        }
        let mut i: usize = self.objects.len();
        while i > 0
            invariant
                i <= self.objects@.len(),
                forall|j: int| i <= j < self.objects@.len() ==> (#[trigger] self.objects@[j]).header
                    != *id,
            decreases i,
        {
            i = i - 1;
            if self.objects[i].header.object_number == id.object_number
                && self.objects[i].header.generation_number == id.generation_number {
                proof {
                    lemma_last_index(self.objects@, *id);
                    let found = last_index(self.objects@, *id);
                    assert(self.objects@[i as int].header == *id);
                    if found > i {
                        assert(self.objects@[found].header != *id);
                    }
                }
                return Some(i);
            }
        }
        proof {
            lemma_last_index(self.objects@, *id);
            let found = last_index(self.objects@, *id);
            if found >= 0 {
                assert(self.objects@[found].header != *id);
            }
        }
        None
    }

    /// Whether one of the first `upto` objects is labelled `id`.
    pub fn defined_before(&self, upto: usize, id: &PDFObjectHeader) -> (r: bool)
        requires
            upto <= self.objects@.len(),
        ensures
            r == objects_view(self.objects@.take(upto as int)).dom().contains(*id),
    {
        let ghost earlier = self.objects@.take(upto as int);
        let mut i: usize = 0;
        while i < upto
            invariant
                i <= upto <= self.objects@.len(),
                earlier == self.objects@.take(upto as int),
                forall|j: int| 0 <= j < i ==> (#[trigger] earlier[j]).header != *id,
            decreases upto - i,
        {
            if self.objects[i].header.object_number == id.object_number
                && self.objects[i].header.generation_number == id.generation_number {
                proof {
                    lemma_last_index(earlier, *id);
                    assert(earlier[i as int].header == *id);
                }
                return true;
            }
            i = i + 1;
        }
        proof {
            lemma_last_index(earlier, *id);
            let found = last_index(earlier, *id);
            if found >= 0 {
                assert(earlier[found].header != *id);
            }
        }
        false
    }

    /// How many labels the table defines.
    pub fn count(&self) -> (r: usize)
        ensures
            self@.dom().finite(),
            r == self@.dom().len(),
    {
        let mut count: usize = 0;
        let mut i: usize = 0;
        assert(self.objects@.take(0) =~= Seq::<PDFObject>::empty());
        while i < self.objects.len()
            invariant
                i <= self.objects@.len(),
                count <= i,
                objects_view(self.objects@.take(i as int)).dom().finite(),
                count == objects_view(self.objects@.take(i as int)).dom().len(),
            decreases self.objects@.len() - i,
        {
            let header: PDFObjectHeader = self.objects[i].header;
            let known: bool = self.defined_before(i, &header);
            proof {
                assert(self.objects@.take(i + 1).drop_last() =~= self.objects@.take(i as int));
                assert(self.objects@.take(i + 1).last() == self.objects@[i as int]);
            }
            if !known {
                count = count + 1;
            }
            i = i + 1;
        }
        assert(self.objects@.take(i as int) =~= self.objects@);
        count
    }

    /// The object that `id` stands for.
    pub fn get(&self, id: &PDFObjectHeader) -> (r: Option<&PDFObject>)
        ensures
            r is Some <==> self@.dom().contains(*id),
            r matches Some(object) ==> object@ == self@[*id] && object.header == *id,
    {
        proof {
            lemma_last_index(self.objects@, *id);
        }
        match self.find(id) {
            Some(i) => Some(&self.objects[i]),
            None => None,
        }
    }

    /// The object whose header stands at `offset` in the file; where several
    /// do, the one with the least label.
    pub fn at_offset(&self, offset: u64) -> (r: Option<&PDFObject>)
        ensures
            r matches Some(object) ==> is_first_at(self@, offset, object.header) && self@[object.header]
                == object@,
            r is None ==> forall|id: PDFObjectHeader|
                self@.dom().contains(id) ==> (#[trigger] self@[id]).offset != offset,
    {
        let mut best: Option<usize> = None;
        let mut i: usize = 0;
        while i < self.objects.len()
            invariant
                i <= self.objects@.len(),
                best matches Some(b) ==> b < i && stands_at(self.objects@, offset, b as int),
                forall|j: int|
                    0 <= j < i && stands_at(self.objects@, offset, j) ==> best is Some && header_le(
                        self.objects@[best->0 as int].header,
                        (#[trigger] self.objects@[j]).header,
                    ),
            decreases self.objects@.len() - i,
        {
            if self.objects[i].offset == offset {
                let header: PDFObjectHeader = self.objects[i].header;
                let live: bool = match self.find(&header) {
                    Some(j) => j == i,
                    None => false,
                };
                if live {
                    let better: bool = match best {
                        None => true,
                        Some(b) => !header_le_exec(&self.objects[b].header, &header),
                    };
                    if better {
                        best = Some(i);
                    }
                }
            }
            i = i + 1;
        }
        match best {
            Some(b) => {
                proof {
                    let found = self.objects@[b as int];
                    lemma_last_index(self.objects@, found.header);
                    assert forall|other: PDFObjectHeader|
                        self@.dom().contains(other) && (#[trigger] self@[other]).offset
                            == offset implies header_le(found.header, other) by {
                        lemma_last_index(self.objects@, other);
                        let j = last_index(self.objects@, other);
                        assert(stands_at(self.objects@, offset, j));
                        assert(self.objects@[j].header == other);
                    }
                }
                Some(&self.objects[b])
            },
            None => {
                proof {
                    assert forall|id: PDFObjectHeader| self@.dom().contains(id) implies (
                    #[trigger] self@[id]).offset != offset by {
                        lemma_last_index(self.objects@, id);
                        let j = last_index(self.objects@, id);
                        if self@[id].offset == offset {
                            assert(stands_at(self.objects@, offset, j));
                        }
                    }
                }
                None
            },
        }
    }
}

/// The order of labels: by object number, then by generation.
pub open spec fn header_le(a: PDFObjectHeader, b: PDFObjectHeader) -> bool {
    a.object_number < b.object_number || (a.object_number == b.object_number
        && a.generation_number <= b.generation_number)
}

pub fn header_le_exec(a: &PDFObjectHeader, b: &PDFObjectHeader) -> (r: bool)
    ensures
        r == header_le(*a, *b),
{
    a.object_number < b.object_number || (a.object_number == b.object_number
        && a.generation_number <= b.generation_number)
}

/// Whether the object at `index` is the one that its label stands for, and
/// stands at `offset` in the file.
pub open spec fn stands_at(objects: Seq<PDFObject>, offset: u64, index: int) -> bool {
    0 <= index < objects.len() && objects[index].offset == offset && last_index(
        objects,
        objects[index].header,
    ) == index
}

/// Whether `id` is the least label of an object that stands at `offset`.
pub open spec fn is_first_at(
    objects: Map<PDFObjectHeader, ObjectView>,
    offset: u64,
    id: PDFObjectHeader,
) -> bool {
    objects.dom().contains(id) && objects[id].offset == offset && forall|other: PDFObjectHeader|
        objects.dom().contains(other) && (#[trigger] objects[other]).offset == offset ==> header_le(
            id,
            other,
        )
}

/// The object that stands at `offset`: of several, the one with the least
/// label.
pub open spec fn object_at(objects: Map<PDFObjectHeader, ObjectView>, offset: u64) -> Option<
    ObjectView,
> {
    if exists|id: PDFObjectHeader| is_first_at(objects, offset, id) {
        Some(objects[choose|id: PDFObjectHeader| is_first_at(objects, offset, id)])
    } else {
        None
    }
}

/// At most one label is the least.
pub proof fn lemma_first_at_unique(
    objects: Map<PDFObjectHeader, ObjectView>,
    offset: u64,
    a: PDFObjectHeader,
    b: PDFObjectHeader,
)
    requires
        is_first_at(objects, offset, a),
        is_first_at(objects, offset, b),
    ensures
        a == b,
{
    assert(header_le(a, b));
    assert(header_le(b, a));
}

pub open spec fn option_object(r: Option<PDFObject>) -> Option<ObjectView> {
    match r {
        Some(object) => Some(object@),
        None => None,
    }
}

impl ObjectTable {
    /// A copy of the object that stands at `offset`.
    pub fn copy_at_offset(&self, offset: u64) -> (r: Option<PDFObject>)
        ensures
            option_object(r) == object_at(self@, offset),
    {
        match self.at_offset(offset) {
            Some(object) => {
                proof {
                    let chosen = choose|id: PDFObjectHeader| is_first_at(self@, offset, id);
                    lemma_first_at_unique(self@, offset, object.header, chosen);
                }
                Some(object.duplicate())
            },
            None => {
                proof {
                    if exists|id: PDFObjectHeader| is_first_at(self@, offset, id) {
                        let chosen = choose|id: PDFObjectHeader| is_first_at(self@, offset, id);
                        assert(self@[chosen].offset == offset);
                    }
                }
                None
            },
        }
    }

    /// A copy of the object that `id` stands for.
    pub fn copy_of(&self, id: &PDFObjectHeader) -> (r: Option<PDFObject>)
        ensures
            option_object(r) == if self@.dom().contains(*id) {
                Some(self@[*id])
            } else {
                None
            },
    {
        match self.get(id) {
            Some(object) => Some(object.duplicate()),
            None => None,
        }
    }
}

pub open spec fn option_bytes(r: Option<Vec<u8>>) -> Option<Seq<u8>> {
    match r {
        Some(bytes) => Some(bytes@),
        None => None,
    }
}

/// The bytes that a zlib stream decompresses to; `None` where the
/// decompressor rejects the data.
pub uninterp spec fn inflated(data: Seq<u8>) -> Option<Seq<u8>>;

/// `flate2::read::ZlibDecoder::new` over `data`, read to its end: the
/// decompressed bytes, or `None` where the decoder reports an error. The
/// contract only gives the outcome its name: it is a function of the data.
#[verifier::external_body]
fn inflate(data: &[u8]) -> (r: Option<Vec<u8>>)
    ensures
        option_bytes(r) == inflated(data@),
{
    let mut out: Vec<u8> = Vec::new();
    let mut decoder = flate2::read::ZlibDecoder::new(data);
    match std::io::Read::read_to_end(&mut decoder, &mut out) {
        Ok(_) => Some(out),
        Err(_) => None,
    }
}

pub open spec fn name_flate_decode() -> Seq<u8> {
    seq![
        'F' as u8,
        'l' as u8,
        'a' as u8,
        't' as u8,
        'e' as u8,
        'D' as u8,
        'e' as u8,
        'c' as u8,
        'o' as u8,
        'd' as u8,
        'e' as u8,
    ]
}

pub open spec fn key_filter() -> Seq<u8> {
    seq!['F' as u8, 'i' as u8, 'l' as u8, 't' as u8, 'e' as u8, 'r' as u8]
}

/// Whether the engine can decode a stream with this dictionary: it names no
/// filter, or the filter `FlateDecode`.
pub open spec fn filter_check(dictionary: Map<Seq<u8>, ValueView>) -> Result<(), PdfError> {
    if !dictionary.dom().contains(key_filter()) {
        Ok(())
    } else {
        match dictionary[key_filter()] {
            ValueView::Name(name) => if name == name_flate_decode() {
                Ok(())
            } else {
                Err(PdfError::UnknownFilter)
            },
            other => Err(
                PdfError::TypeMismatch {
                    place: Place::Filter,
                    expected: ValueKind::Name,
                    got: kind_of(other),
                },
            ),
        }
    }
}

/// What decoding gives for a stream with the bytes `raw`, given what the
/// decompressor made of them: the error of the filter check; the bytes as
/// they are where the stream names no filter; else the decompressed bytes,
/// or the failure of the decompressor.
pub open spec fn decoded(
    dictionary: Map<Seq<u8>, ValueView>,
    raw: Seq<u8>,
    outcome: Option<Seq<u8>>,
) -> Result<Seq<u8>, PdfError> {
    match filter_check(dictionary) {
        Err(e) => Err(e),
        Ok(_) => if !dictionary.dom().contains(key_filter()) {
            Ok(raw)
        } else {
            match outcome {
                Some(bytes) => Ok(bytes),
                None => Err(PdfError::DecompressionFailure),
            }
        },
    }
}

/// The decoded bytes of a stream.
pub open spec fn stream_data(stream: StreamView) -> Result<Seq<u8>, PdfError> {
    decoded(stream.dictionary, stream.bytes, inflated(stream.bytes))
}

pub open spec fn bytes_outcome(r: Result<Vec<u8>, PdfError>) -> Result<Seq<u8>, PdfError> {
    match r {
        Ok(bytes) => Ok(bytes@),
        Err(e) => Err(e),
    }
}

impl PDFStream {
    /// Whether the stream names a filter that the engine can decode.
    pub fn check_filter(&self) -> (r: Result<(), PdfError>)
        ensures
            r == filter_check(self@.dictionary),
    {
        let key: [u8; 6] = ['F' as u8, 'i' as u8, 'l' as u8, 't' as u8, 'e' as u8, 'r' as u8];
        assert(key@ =~= key_filter());
        match self.dictionary.get(&key) {
            None => Ok(()),
            Some(value) => match value {
                PDFValue::Name(name) => {
                    let flate: [u8; 11] = [
                        'F' as u8,
                        'l' as u8,
                        'a' as u8,
                        't' as u8,
                        'e' as u8,
                        'D' as u8,
                        'e' as u8,
                        'c' as u8,
                        'o' as u8,
                        'd' as u8,
                        'e' as u8,
                    ];
                    assert(flate@ =~= name_flate_decode());
                    if bytes_eq(name.as_slice(), &flate) {
                        Ok(())
                    } else {
                        Err(PdfError::UnknownFilter)
                    }
                },
                other => Err(
                    PdfError::TypeMismatch {
                        place: Place::Filter,
                        expected: ValueKind::Name,
                        got: other.kind(),
                    },
                ),
            },
        }
    }

    /// Whether the stream names a filter.
    pub fn has_filter(&self) -> (r: bool)
        ensures
            r == self@.dictionary.dom().contains(key_filter()),
    {
        let key: [u8; 6] = ['F' as u8, 'i' as u8, 'l' as u8, 't' as u8, 'e' as u8, 'r' as u8];
        assert(key@ =~= key_filter());
        self.dictionary.get(&key).is_some()
    }

    /// What decoding gives, given what the decompressor made of the bytes.
    pub fn decode_with(&self, outcome: Option<Vec<u8>>) -> (r: Result<Vec<u8>, PdfError>)
        ensures
            bytes_outcome(r) == decoded(self@.dictionary, self@.bytes, option_bytes(outcome)),
    {
        match self.check_filter() {
            Err(e) => Err(e),
            Ok(_) => {
                if !self.has_filter() {
                    Ok(clone_bytes(&self.bytes))
                } else {
                    match outcome {
                        Some(bytes) => Ok(bytes),
                        None => Err(PdfError::DecompressionFailure),
                    }
                }
            },
        }
    }

    /// The decoded bytes of the stream: the bytes as they are where the
    /// stream names no filter, else what the decompressor makes of them.
    pub fn decompress(&self) -> (r: Result<Vec<u8>, PdfError>)
        ensures
            bytes_outcome(r) == stream_data(self@),
    {
        match self.check_filter() {
            Err(e) => Err(e),
            Ok(_) => {
                if !self.has_filter() {
                    Ok(clone_bytes(&self.bytes))
                } else {
                    self.decode_with(inflate(self.bytes.as_slice()))
                }
            },
        }
    }
}

/// A document: what the parser has read of it.
#[derive(Debug, PartialEq)]
pub struct PDF {
    /// The version that the header comment states, as `PDF-X.Y`.
    pub version: Option<Vec<u8>>,
    /// The indirect objects.
    pub objects: ObjectTable,
    /// The offset that `startxref` states.
    pub startxref: Option<u64>,
    /// The catalog.
    pub root: Option<PDFObject>,
    /// The trailer dictionary.
    pub trailer: Option<PDFDictionary>,
    /// The cross-reference section.
    pub xref_table: Option<crate::tokenizer::XRefSection>,
    /// The pages, in the order of the page tree.
    pub pages: Vec<crate::page::PDFPage>,
}

/// A document as a mathematical value.
pub struct PdfView {
    pub version: Option<Seq<u8>>,
    pub objects: Map<PDFObjectHeader, ObjectView>,
    pub startxref: Option<u64>,
    pub root: Option<ObjectView>,
    pub trailer: Option<Map<Seq<u8>, ValueView>>,
    pub xref_table: Option<crate::tokenizer::XRefSectionView>,
    pub pages: Seq<crate::page::PageView>,
}

pub open spec fn pages_view(pages: Seq<crate::page::PDFPage>) -> Seq<crate::page::PageView> {
    pages.map_values(|p: crate::page::PDFPage| p@)
}

impl View for PDF {
    type V = PdfView;

    open spec fn view(&self) -> PdfView {
        PdfView {
            version: match self.version {
                Some(v) => Some(v@),
                None => None,
            },
            objects: self.objects@,
            startxref: self.startxref,
            root: match self.root {
                Some(object) => Some(object@),
                None => None,
            },
            trailer: match self.trailer {
                Some(dictionary) => Some(dictionary@),
                None => None,
            },
            xref_table: match self.xref_table {
                Some(section) => Some(section@),
                None => None,
            },
            pages: pages_view(self.pages@),
        }
    }
}

/// The document of which nothing has been read.
pub open spec fn empty_document() -> PdfView {
    PdfView {
        version: None,
        objects: Map::empty(),
        startxref: None,
        root: None,
        trailer: None,
        xref_table: None,
        pages: Seq::empty(),
    }
}

impl Default for PDF {
    fn default() -> (r: Self)
        ensures
            r@ == empty_document(),
    {
        let r = PDF {
            version: None,
            objects: ObjectTable::new(),
            startxref: None,
            root: None,
            trailer: None,
            xref_table: None,
            pages: Vec::new(),
        };
        assert(pages_view(r.pages@) =~= Seq::<crate::page::PageView>::empty());
        r
    }
}

impl PDF {
    /// The pages of the document, in the order of the page tree.
    pub fn pages(&self) -> (r: &Vec<crate::page::PDFPage>)
        ensures
            r@ == self.pages@,
    {
        &self.pages
    }

    /// The text objects of the page at `page_index`.
    pub fn text_on(&self, page_index: usize) -> (r: Result<
        Vec<crate::text::TextObjectContent>,
        PdfError,
    >)
        ensures
            crate::text::objects_result(r) == if page_index < self@.pages.len() {
                crate::page::page_text(self@.pages[page_index as int])
            } else {
                Err(PdfError::StateViolation { cause: crate::error::Violation::NoSuchPage })
            },
    {
        if page_index < self.pages.len() {
            self.pages[page_index].get_text()
        } else {
            Err(PdfError::StateViolation { cause: crate::error::Violation::NoSuchPage })
        }
    }
}

} // verus!
