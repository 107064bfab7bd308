//! The decoding of cross-reference streams: records of three big-endian
//! fields of given widths.
use crate::error::{PdfError, XRefFault};
use crate::tokenizer::XRefStreamEntry;
use vstd::prelude::*;

verus! {

/// The number that bytes denote, most significant byte first.
pub open spec fn be_value(bytes: Seq<u8>) -> nat
    decreases bytes.len(),
{
    if bytes.len() == 0 {
        0
    } else {
        be_value(bytes.drop_last()) * 256 + bytes.last() as nat
    }
}

pub open spec fn pow256(n: nat) -> nat
    decreases n,
{
    if n == 0 {
        1
    } else {
        256 * pow256((n - 1) as nat)
    }
}

pub proof fn lemma_pow256(n: nat)
    requires
        n <= 8,
    ensures
        pow256(n) <= 0x1_0000_0000_0000_0000,
        n <= 7 ==> pow256(n) <= 0x100_0000_0000_0000,
    decreases n,
{
    if n > 0 {
        lemma_pow256((n - 1) as nat);
    }
    reveal_with_fuel(pow256, 10);
}

/// Reads `width` bytes from `start` on as a number, most significant byte
/// first.
pub fn read_u64(bytes: &[u8], start: usize, width: usize) -> (r: u64)
    requires
        width <= 8,
        start + width <= bytes@.len(),
    ensures
        r == be_value(bytes@.subrange(start as int, start + width)),
{
    let ghost field = bytes@.subrange(start as int, start + width);
    let len: usize = bytes.len();
    let mut value: u64 = 0;
    let mut k: usize = 0;
    assert(field.take(0) =~= Seq::<u8>::empty());
    while k < width
        invariant
            k <= width <= 8,
            start + width <= bytes@.len() <= usize::MAX,
            field == bytes@.subrange(start as int, start + width),
            value == be_value(field.take(k as int)),
            value < pow256(k as nat),
        decreases width - k,
    {
        proof {
            lemma_pow256(k as nat);
            assert(field.take(k + 1).drop_last() =~= field.take(k as int));
            assert(field.take(k + 1).last() == bytes@[start + k]);
        }
        value = value * 256 + bytes[start + k] as u64;
        k = k + 1;
    }
    assert(field.take(width as int) =~= field);
    value
}

/// The record that `bytes` hold, with fields of the widths `w0`, `w1` and
/// `w2`. A record without a type field is of type 1.
pub open spec fn record(bytes: Seq<u8>, w0: int, w1: int, w2: int) -> Result<
    XRefStreamEntry,
    PdfError,
> {
    let kind = if w0 == 0 {
        1
    } else {
        be_value(bytes.subrange(0, w0))
    };
    let second = be_value(bytes.subrange(w0, w0 + w1)) as u64;
    let third = be_value(bytes.subrange(w0 + w1, w0 + w1 + w2)) as u64;
    if kind == 0 {
        Ok(XRefStreamEntry::Free { next_free_obj: second, next_gen: third })
    } else if kind == 1 {
        Ok(XRefStreamEntry::Uncompressed { offset: second, gen: third })
    } else if kind == 2 {
        Ok(XRefStreamEntry::Compressed { parent_stream_obj: second, index: third })
    } else {
        Err(PdfError::XRefFormat { cause: XRefFault::UnknownType })
    }
}

/// The `i`-th record of `payload`.
pub open spec fn record_at(payload: Seq<u8>, widths: Seq<u64>, i: int) -> Result<
    XRefStreamEntry,
    PdfError,
> {
    let size = widths[0] + widths[1] + widths[2];
    record(
        payload.subrange(i * size, i * size + size),
        widths[0] as int,
        widths[1] as int,
        widths[2] as int,
    )
}

/// What is wrong with the widths or the length of the payload, if anything.
pub open spec fn layout_fault(payload: Seq<u8>, widths: Seq<u64>) -> Option<XRefFault> {
    if widths.len() != 3 {
        Some(XRefFault::WidthCount)
    } else if widths[0] > 8 || widths[1] > 8 || widths[2] > 8 {
        Some(XRefFault::FieldTooWide)
    } else if widths[0] + widths[1] + widths[2] == 0 {
        Some(XRefFault::EmptyRecord)
    } else if payload.len() % ((widths[0] + widths[1] + widths[2]) as nat) != 0 {
        Some(XRefFault::PartialRecord)
    } else {
        None
    }
}

/// The records of a cross-reference stream: the payload cut into records of
/// the three widths. The widths must be three, of at most eight bytes each
/// and not all zero; the payload must be a whole number of records; and each
/// record must be of a known type.
pub open spec fn records(payload: Seq<u8>, widths: Seq<u64>) -> Result<
    Seq<XRefStreamEntry>,
    PdfError,
> {
    match layout_fault(payload, widths) {
        Some(cause) => Err(PdfError::XRefFormat { cause }),
        None => {
            let count = payload.len() as int / (widths[0] + widths[1] + widths[2]);
            if forall|i: int| 0 <= i < count ==> (#[trigger] record_at(payload, widths, i)) is Ok {
                Ok(Seq::new(count as nat, |i: int| record_at(payload, widths, i)->Ok_0))
            } else {
                Err(PdfError::XRefFormat { cause: XRefFault::UnknownType })
            }
        },
    }
}

pub open spec fn records_result(r: Result<Vec<XRefStreamEntry>, PdfError>) -> Result<
    Seq<XRefStreamEntry>,
    PdfError,
> {
    match r {
        Ok(entries) => Ok(entries@),
        Err(e) => Err(e),
    }
}

/// Reads the record that starts at `start`.
pub fn read_record(payload: &[u8], start: usize, w0: usize, w1: usize, w2: usize) -> (r: Result<
    XRefStreamEntry,
    PdfError,
>)
    requires
        w0 <= 8,
        w1 <= 8,
        w2 <= 8,
        start + w0 + w1 + w2 <= payload@.len(),
    ensures
        r == record(
            payload@.subrange(start as int, start + w0 + w1 + w2),
            w0 as int,
            w1 as int,
            w2 as int,
        ),
{
    let ghost bytes = payload@.subrange(start as int, start + w0 + w1 + w2);
    proof {
        assert(bytes.subrange(0, w0 as int) =~= payload@.subrange(start as int, start + w0));
        assert(bytes.subrange(w0 as int, w0 + w1) =~= payload@.subrange(
            start + w0,
            start + w0 + w1,
        ));
        assert(bytes.subrange(w0 + w1, w0 + w1 + w2) =~= payload@.subrange(
            start + w0 + w1,
            start + w0 + w1 + w2,
        ));
    }
    let len: usize = payload.len();
    let kind: u64 = if w0 == 0 {
        1
    } else {
        read_u64(payload, start, w0)
    };
    let second: u64 = read_u64(payload, start + w0, w1);
    let third: u64 = read_u64(payload, start + w0 + w1, w2);
    if kind == 0 {
        Ok(XRefStreamEntry::Free { next_free_obj: second, next_gen: third })
    } else if kind == 1 {
        Ok(XRefStreamEntry::Uncompressed { offset: second, gen: third })
    } else if kind == 2 {
        Ok(XRefStreamEntry::Compressed { parent_stream_obj: second, index: third })
    } else {
        Err(PdfError::XRefFormat { cause: XRefFault::UnknownType })
    }
}

/// Decodes the payload of a cross-reference stream into its records.
pub fn decode_xref_stream(widths: &[u64], payload: &[u8]) -> (r: Result<
    Vec<XRefStreamEntry>,
    PdfError,
>)
    ensures
        records_result(r) == records(payload@, widths@),
{
    if widths.len() != 3 {
        return Err(PdfError::XRefFormat { cause: XRefFault::WidthCount });
    }
    if widths[0] > 8 || widths[1] > 8 || widths[2] > 8 {
        return Err(PdfError::XRefFormat { cause: XRefFault::FieldTooWide });
    }
    let w0: usize = widths[0] as usize;
    let w1: usize = widths[1] as usize;
    let w2: usize = widths[2] as usize;
    let size: usize = w0 + w1 + w2;
    if size == 0 {
        return Err(PdfError::XRefFormat { cause: XRefFault::EmptyRecord });
    }
    if payload.len() % size != 0 {
        return Err(PdfError::XRefFormat { cause: XRefFault::PartialRecord });
    }
    let count: usize = payload.len() / size;
    let mut entries: Vec<XRefStreamEntry> = Vec::new();
    let mut i: usize = 0;
    while i < count
        invariant
            i <= count,
            widths@.len() == 3,
            w0 == widths@[0],
            w1 == widths@[1],
            w2 == widths@[2],
            w0 <= 8,
            w1 <= 8,
            w2 <= 8,
            size == w0 + w1 + w2,
            size > 0,
            count == payload@.len() as int / size as int,
            payload@.len() as int % size as int == 0,
            payload@.len() <= usize::MAX,
            entries@.len() == i,
            forall|k: int|
                0 <= k < i ==> (#[trigger] record_at(payload@, widths@, k)) == Ok::<
                    XRefStreamEntry,
                    PdfError,
                >(entries@[k]),
        decreases count - i,
    {
        proof {
            assert(0 <= i * size && i * size + size <= payload@.len()) by (nonlinear_arith)
                requires
                    i < count,
                    count == payload@.len() as int / size as int,
                    payload@.len() as int % size as int == 0,
                    size > 0,
            ;
        }
        match read_record(payload, i * size, w0, w1, w2) {
            Ok(entry) => {
                entries.push(entry);
            },
            Err(e) => {
                assert(!(record_at(payload@, widths@, i as int) is Ok));
                return Err(e);
            },
        }
        i = i + 1;
    }
    proof {
        assert(entries@ =~= Seq::new(
            count as nat,
            |i: int| record_at(payload@, widths@, i)->Ok_0,
        ));
    }
    Ok(entries)
}

} // verus!
