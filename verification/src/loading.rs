//! Reading a deck of flashcards from comma-separated text: one card to a
//! record, its front in the first field and its back in the second, under a
//! header record.

use vstd::prelude::*;
use vstd::string::StringExecFns;
use crate::flashcards::Card;

verus! {

/// Why a deck could not be read.
#[derive(Clone, Copy, Debug, PartialEq, Eq, Structural)]
pub enum LoadError {
    /// The text is not what the reader of comma-separated values accepts.
    Malformed,
    /// A record has fewer than two fields.
    MissingField,
}

/// The error of the reader of comma-separated values, `csv::Error`. Nothing
/// is known of what it holds; it is only told apart from success.
#[verifier::external_type_specification]
#[verifier::external_body]
pub struct ExCsvError(csv::Error);

/// The records after the header that `csv::Reader`, set up as it comes,
/// reads from `data`, each as its fields; nothing where it reports an error
/// on the way.
pub uninterp spec fn csv_rows(data: Seq<u8>) -> Option<Seq<Seq<Seq<char>>>>;

/// What `str::trim` leaves of a text.
pub uninterp spec fn trim_of(text: Seq<char>) -> Seq<char>;

/// Records as the texts of their fields.
pub open spec fn rows_view(rows: Seq<Vec<String>>) -> Seq<Seq<Seq<char>>> {
    Seq::new(rows.len(), |i: int| Seq::new(rows[i]@.len(), |j: int| rows[i]@[j]@))
}

/// Calls `csv::Reader::from_reader` on the bytes and walks `records()` to
/// the end or to the first error. The contract claims only that what comes
/// back, records or an error, is a function of the bytes.
#[verifier::external_body]
fn read_rows(data: &[u8]) -> (r: Result<Vec<Vec<String>>, csv::Error>)
    ensures
        r is Ok <==> csv_rows(data@) is Some,
        r is Ok ==> rows_view(r->Ok_0@) == csv_rows(data@)->Some_0,
{
    let mut rows = Vec::new();
    for record in csv::Reader::from_reader(data).records() {
        rows.push(record?.iter().map(|field| field.to_string()).collect());
    }
    Ok(rows)
}

/// Calls `str::trim`. The contract claims only that the result is a
/// function of the text.
#[verifier::external_body]
fn trimmed(text: &str) -> (r: &str)
    ensures
        r@ == trim_of(text@),
{
    text.trim()
}

/// Whether every record has a first and a second field.
pub open spec fn all_have_two_fields(rows: Seq<Seq<Seq<char>>>) -> bool {
    forall|i: int| 0 <= i < rows.len() ==> (#[trigger] rows[i]).len() >= 2
}

/// Whether `cards` are the cards of `rows`: one to a record and in the same
/// order, with the first field trimmed on the front and the second field
/// trimmed on the back.
pub open spec fn cards_of_rows(cards: Seq<Card>, rows: Seq<Seq<Seq<char>>>) -> bool {
    &&& cards.len() == rows.len()
    &&& forall|i: int|
        0 <= i < cards.len() ==> (#[trigger] cards[i]).front_view() == trim_of(rows[i][0])
            && cards[i].back_view() == trim_of(rows[i][1])
}

/// Whether `r` is what reading `rows` comes to: the cards of `rows`, or
/// `MissingField` where a record is too short.
pub open spec fn is_deck_of(r: Result<Vec<Card>, LoadError>, rows: Seq<Seq<Seq<char>>>) -> bool {
    if all_have_two_fields(rows) {
        r is Ok && cards_of_rows(r->Ok_0@, rows)
    } else {
        r is Err && r->Err_0 == LoadError::MissingField
    }
}

/// Makes a card of each record.
pub fn cards_from_rows(rows: &Vec<Vec<String>>) -> (r: Result<Vec<Card>, LoadError>)
    ensures
        is_deck_of(r, rows_view(rows@)),
{
    let ghost texts = rows_view(rows@);
    let mut cards: Vec<Card> = Vec::new();
    let mut i: usize = 0;
    while i < rows.len()
        invariant
            i <= rows.len(),
            texts == rows_view(rows@),
            cards.len() == i,
            forall|k: int| 0 <= k < i ==> (#[trigger] texts[k]).len() >= 2,
            forall|k: int|
                0 <= k < i ==> (#[trigger] cards[k]).front_view() == trim_of(texts[k][0])
                    && cards[k].back_view() == trim_of(texts[k][1]),
        decreases rows.len() - i,
    {
        let row = &rows[i];
        if row.len() < 2 {
            assert(texts[i as int].len() < 2);
            return Err(LoadError::MissingField);
        }
        assert(texts[i as int][0] == row[0]@);
        assert(texts[i as int][1] == row[1]@);
        let front = String::from_str(trimmed(row[0].as_str()));
        let back = String::from_str(trimmed(row[1].as_str()));
        cards.push(Card::new(front, back));
        i += 1;
    }
    Ok(cards)
}

/// Reads a deck from comma-separated text. The first record is a header
/// and makes no card.
pub fn load_from_csv(data: &[u8]) -> (r: Result<Vec<Card>, LoadError>)
    ensures
        csv_rows(data@) is None ==> r is Err && r->Err_0 == LoadError::Malformed,
        csv_rows(data@) is Some ==> is_deck_of(r, csv_rows(data@)->Some_0),
{
    match read_rows(data) {
        Err(_) => Err(LoadError::Malformed),
        Ok(rows) => cards_from_rows(&rows),
    }
}

} // verus!
