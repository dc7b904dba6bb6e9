//! Decoding the price levels of an exchange message. On the wire a level is a
//! two-element list `[price, amount]` whose elements are numbers or strings
//! holding decimal literals.

use vstd::prelude::*;
use crate::book::{AnonymousLevel, SimpleOrderBook};
use crate::decimal::{parse_decimal, parsed_units};

verus! {

/// One element of a level as the message held it.
#[derive(Debug)]
pub enum LevelField {
    /// A numeric literal, with its text.
    Number(String),
    /// A string.
    Text(String),
    /// Anything else (null, a boolean, a list, an object).
    Other,
}

/// Why a message could not be decoded.
#[derive(Debug, PartialEq, Eq)]
pub enum DecodeError {
    /// The message was not of the expected shape; the text says how.
    Malformed(String),
    /// A level had this many elements instead of two.
    LevelLength(usize),
    /// A level element was no decimal literal that fits.
    NotANumber,
}

/// The value, in units, of one level element.
pub open spec fn field_units(f: LevelField) -> Option<u64> {
    match f {
        LevelField::Number(t) => parsed_units(t@),
        LevelField::Text(t) => parsed_units(t@),
        LevelField::Other => None,
    }
}

/// What the elements of one level decode to.
pub open spec fn level_of(fields: Seq<LevelField>) -> Result<AnonymousLevel, DecodeError> {
    if fields.len() != 2 {
        Err(DecodeError::LevelLength(fields.len() as usize))
    } else {
        match (field_units(fields[0]), field_units(fields[1])) {
            (Some(price), Some(amount)) => Ok(AnonymousLevel { price, amount }),
            _ => Err(DecodeError::NotANumber),
        }
    }
}

/// `levels` decode to `out`: each level decodes, to the level at its place.
pub open spec fn side_decodes_to(levels: Seq<Vec<LevelField>>, out: Seq<AnonymousLevel>) -> bool {
    &&& out.len() == levels.len()
    &&& forall|i: int| 0 <= i < levels.len() ==> level_of(#[trigger] levels[i]@) == Ok::<
        AnonymousLevel,
        DecodeError,
    >(out[i])
}

/// `e` is the error of the first level of `levels` that does not decode.
pub open spec fn side_fails_with(levels: Seq<Vec<LevelField>>, e: DecodeError) -> bool {
    exists|i: int|
        0 <= i < levels.len() && level_of(#[trigger] levels[i]@) == Err::<AnonymousLevel, DecodeError>(
            e,
        ) && forall|j: int| 0 <= j < i ==> (#[trigger] level_of(levels[j]@)) is Ok
}

fn decode_field(f: &LevelField) -> (r: Option<u64>)
    ensures
        r == field_units(*f),
{
    match f {
        LevelField::Number(t) => parse_decimal(t.as_str()),
        LevelField::Text(t) => parse_decimal(t.as_str()),
        LevelField::Other => None,
    }
}

/// Decodes one level: exactly two elements, each a decimal literal.
pub fn decode_level(fields: &Vec<LevelField>) -> (r: Result<AnonymousLevel, DecodeError>)
    ensures
        r == level_of(fields@),
{
    if fields.len() != 2 {
        return Err(DecodeError::LevelLength(fields.len()));
    }
    let price = decode_field(&fields[0]);
    let amount = decode_field(&fields[1]);
    match (price, amount) {
        (Some(price), Some(amount)) => Ok(AnonymousLevel { price, amount }),
        _ => Err(DecodeError::NotANumber),
    }
}

/// Decodes every level of one side of a book, in order; the first level that
/// does not decode gives the error.
pub fn decode_side(levels: &Vec<Vec<LevelField>>) -> (r: Result<Vec<AnonymousLevel>, DecodeError>)
    ensures
        r matches Ok(out) ==> side_decodes_to(levels@, out@),
        r matches Err(e) ==> side_fails_with(levels@, e),
        r is Ok <==> forall|i: int| 0 <= i < levels@.len() ==> (#[trigger] level_of(levels@[i]@)) is Ok,
{
    let mut out: Vec<AnonymousLevel> = Vec::new();
    let mut i: usize = 0;
    while i < levels.len()
        invariant
            i <= levels@.len(),
            out@.len() == i,
            forall|j: int| 0 <= j < i ==> level_of(#[trigger] levels@[j]@) == Ok::<
                AnonymousLevel,
                DecodeError,
            >(out@[j]),
        decreases levels@.len() - i,
    {
        match decode_level(&levels[i]) {
            Ok(level) => out.push(level),
            Err(e) => {
                assert(forall|j: int| 0 <= j < i ==> (#[trigger] level_of(levels@[j]@)) is Ok);
                assert(level_of(levels@[i as int]@) == Err::<AnonymousLevel, DecodeError>(e));
                return Err(e);
            },
        }
        i = i + 1;
    }
    Ok(out)
}

/// Decodes a whole snapshot, bids first: it succeeds exactly when every level
/// of both sides decodes.
pub fn decode_book(bids: &Vec<Vec<LevelField>>, asks: &Vec<Vec<LevelField>>) -> (r: Result<
    SimpleOrderBook,
    DecodeError,
>)
    ensures
        r matches Ok(book) ==> side_decodes_to(bids@, book.bids@) && side_decodes_to(
            asks@,
            book.asks@,
        ),
        r matches Err(e) ==> side_fails_with(bids@, e) || ((forall|i: int|
            0 <= i < bids@.len() ==> (#[trigger] level_of(bids@[i]@)) is Ok) && side_fails_with(
            asks@,
            e,
        )),
        r is Ok <==> (forall|i: int| 0 <= i < bids@.len() ==> (#[trigger] level_of(bids@[i]@)) is Ok)
            && (forall|i: int| 0 <= i < asks@.len() ==> (#[trigger] level_of(asks@[i]@)) is Ok),
{
    let bids = decode_side(bids)?;
    let asks = decode_side(asks)?;
    Ok(SimpleOrderBook { bids, asks })
}

} // verus!
