//! The records of a document: their twenty fields and the item that each
//! describes.

use crate::calendar::{date_of, parse_date, parse_time, time_of, Date, Time};
use crate::error::Error;
use crate::scan::{last_record_scan, record_scan, scan_item, scan_last_item};
use crate::url::{parse_url_suffix, url_suffix};
use vstd::prelude::*;
use vstd::utf8::encode_utf8;

verus! {

/// The number of fields of a record.
pub const FIELDS: usize = 20;

/// One film of the list.
///
/// An item is made once, from a record that was read in full, and is not
/// changed afterwards.
#[derive(Debug, PartialEq, Eq)]
pub struct Item {
    pub channel: String,
    pub topic: String,
    pub title: String,
    pub date: Date,
    pub time: Time,
    pub duration: Time,
    pub description: String,
    pub website: String,
    pub url: String,
    pub url_small: Option<String>,
    pub url_large: Option<String>,
}

/// What an item holds, with texts as sequences of characters.
pub struct ItemView {
    pub channel: Seq<char>,
    pub topic: Seq<char>,
    pub title: Seq<char>,
    pub date: Date,
    pub time: Time,
    pub duration: Time,
    pub description: Seq<char>,
    pub website: Seq<char>,
    pub url: Seq<char>,
    pub url_small: Option<Seq<char>>,
    pub url_large: Option<Seq<char>>,
}

/// What an optional text holds.
pub open spec fn optional_text(text: Option<String>) -> Option<Seq<char>> {
    match text {
        Some(text) => Some(text@),
        None => None,
    }
}

impl View for Item {
    type V = ItemView;

    open spec fn view(&self) -> ItemView {
        ItemView {
            channel: self.channel@,
            topic: self.topic@,
            title: self.title@,
            date: self.date,
            time: self.time,
            duration: self.duration,
            description: self.description@,
            website: self.website@,
            url: self.url@,
            url_small: optional_text(self.url_small),
            url_large: optional_text(self.url_large),
        }
    }
}

impl ItemView {
    /// Whether the date is a day of the calendar and the two times are times
    /// of day.
    pub open spec fn wf(&self) -> bool {
        self.date.valid() && self.time.valid() && self.duration.valid()
    }
}

/// What the items of `items` hold, in their order.
pub open spec fn item_views(items: Seq<Item>) -> Seq<ItemView> {
    items.map_values(|item: Item| item@)
}

/// The raw texts of the values of the JSON array that `bytes` hold, in their
/// order, as `serde_json` reads them; `None` where `bytes` are not one JSON
/// array.
pub uninterp spec fn json_array_items(bytes: Seq<u8>) -> Option<Seq<Seq<char>>>;

/// The text of the JSON string that `raw` writes, as `serde_json` reads it;
/// `None` where `raw` is not one JSON string.
pub uninterp spec fn json_string_value(raw: Seq<char>) -> Option<Seq<char>>;

/// What the texts of `texts` hold, in their order.
pub open spec fn text_views(texts: Seq<String>) -> Seq<Seq<char>> {
    texts.map_values(|text: String| text@)
}

/// The text of the field `index` of a record with the raw fields `raw`.
pub open spec fn text_at(raw: Seq<Seq<char>>, index: int) -> Result<Seq<char>, Error> {
    match json_string_value(raw[index]) {
        Some(text) => Ok(text),
        None => Err(Error::FieldDecode),
    }
}

/// The date in the field `index` of a record with the raw fields `raw`.
pub open spec fn date_at(raw: Seq<Seq<char>>, index: int) -> Result<Date, Error> {
    match text_at(raw, index) {
        Ok(text) => date_of(encode_utf8(text)),
        Err(e) => Err(e),
    }
}

/// The time in the field `index` of a record with the raw fields `raw`.
pub open spec fn time_at(raw: Seq<Seq<char>>, index: int) -> Result<Time, Error> {
    match text_at(raw, index) {
        Ok(text) => time_of(encode_utf8(text)),
        Err(e) => Err(e),
    }
}

/// The URL that the field `index` of a record with the raw fields `raw`
/// derives from the primary URL `url`.
pub open spec fn suffix_at(raw: Seq<Seq<char>>, index: int, url: Seq<char>) -> Result<
    Option<Seq<char>>,
    Error,
> {
    match text_at(raw, index) {
        Ok(field) => url_suffix(url, field),
        Err(e) => Err(e),
    }
}

/// The item that twenty raw fields describe.
///
/// The fields 0, 1, 2, 7, 9 and 8 are channel, topic, title, description,
/// website and primary URL; 3, 4 and 5 are date, time and duration; 12 and 14
/// derive the small and the large URL from the primary one. The other fields
/// are not read. The fields are read in the order channel, topic, title, date,
/// time, duration, description, website, URL, small URL, large URL, and the
/// error is that of the first one that cannot be read.
pub open spec fn fields_item(raw: Seq<Seq<char>>) -> Result<ItemView, Error> {
    let channel = text_at(raw, 0);
    let topic = text_at(raw, 1);
    let title = text_at(raw, 2);
    let date = date_at(raw, 3);
    let time = time_at(raw, 4);
    let duration = time_at(raw, 5);
    let description = text_at(raw, 7);
    let website = text_at(raw, 9);
    let url = text_at(raw, 8);
    let url_small = suffix_at(raw, 12, url->Ok_0);
    let url_large = suffix_at(raw, 14, url->Ok_0);
    if channel is Err {
        Err(channel->Err_0)
    } else if topic is Err {
        Err(topic->Err_0)
    } else if title is Err {
        Err(title->Err_0)
    } else if date is Err {
        Err(date->Err_0)
    } else if time is Err {
        Err(time->Err_0)
    } else if duration is Err {
        Err(duration->Err_0)
    } else if description is Err {
        Err(description->Err_0)
    } else if website is Err {
        Err(website->Err_0)
    } else if url is Err {
        Err(url->Err_0)
    } else if url_small is Err {
        Err(url_small->Err_0)
    } else if url_large is Err {
        Err(url_large->Err_0)
    } else {
        Ok(
            ItemView {
                channel: channel->Ok_0,
                topic: topic->Ok_0,
                title: title->Ok_0,
                date: date->Ok_0,
                time: time->Ok_0,
                duration: duration->Ok_0,
                description: description->Ok_0,
                website: website->Ok_0,
                url: url->Ok_0,
                url_small: url_small->Ok_0,
                url_large: url_large->Ok_0,
            },
        )
    }
}

/// The item that raw fields describe: there must be exactly twenty.
pub open spec fn raw_item(raw: Seq<Seq<char>>) -> Result<ItemView, Error> {
    if raw.len() == FIELDS {
        fields_item(raw)
    } else {
        Err(Error::FieldShape)
    }
}

/// The item that the bytes of a record's array describe.
#[verifier::opaque]
pub open spec fn record_item(bytes: Seq<u8>) -> Result<ItemView, Error> {
    match json_array_items(bytes) {
        Some(raw) => raw_item(raw),
        None => Err(Error::FieldShape),
    }
}

/// What a result with an item says of what the item holds.
pub open spec fn item_result_view(r: Result<Item, Error>) -> Result<ItemView, Error> {
    match r {
        Ok(item) => Ok(item@),
        Err(e) => Err(e),
    }
}

/// What a result of `parse_item` says, with its index as an integer and its
/// item as what it holds.
pub open spec fn item_scan_view(r: Result<Option<(usize, Item)>, Error>) -> Result<
    Option<(int, ItemView)>,
    Error,
> {
    match r {
        Ok(Some((next, item))) => Ok(Some((next as int, item@))),
        Ok(None) => Ok(None),
        Err(e) => Err(e),
    }
}

/// What a result of `text_field` says in characters.
pub open spec fn text_result_view(r: Result<String, Error>) -> Result<Seq<char>, Error> {
    match r {
        Ok(text) => Ok(text@),
        Err(e) => Err(e),
    }
}

/// What a parse of a record that another one follows finds in `input`, the
/// bytes of a document from the start of a record: the index at which the
/// next record begins and the item of this one, `Ok(None)` where more bytes
/// are needed, or the error of the scan or of the record.
pub open spec fn item_scan(input: Seq<u8>) -> Result<Option<(int, ItemView)>, Error> {
    match record_scan(input) {
        Ok(Some((next, fields))) => match record_item(fields) {
            Ok(item) => Ok(Some((next, item))),
            Err(e) => Err(e),
        },
        Ok(None) => Ok(None),
        Err(e) => Err(e),
    }
}

/// What a parse of the last record finds in `input`, all the bytes of a
/// document from the start of its last record.
pub open spec fn last_item(input: Seq<u8>) -> Result<ItemView, Error> {
    match last_record_scan(input) {
        Ok(fields) => record_item(fields),
        Err(e) => Err(e),
    }
}

/// The errors of a record are those of its shape and of its fields.
pub proof fn lemma_record_errors(bytes: Seq<u8>)
    ensures
        record_item(bytes) matches Err(e) ==> e == Error::FieldShape || e == Error::FieldDecode || e
            == Error::NumericParse || e == Error::UrlSuffix,
{
    reveal(record_item);
}

/// The item of a record has a date of the calendar and times of day: where
/// a field gives none, it has the sentinel, which is one.
pub proof fn lemma_record_item_wf(bytes: Seq<u8>)
    ensures
        record_item(bytes) matches Ok(item) ==> item.wf(),
{
    reveal(record_item);
}

/// Calls `serde_json::from_slice` for a sequence of raw values and copies the
/// text of each; `None` stands for its error. Trusted: the result is a
/// function of the bytes alone, named `json_array_items`.
#[verifier::external_body]
fn json_array(bytes: &[u8]) -> (r: Option<Vec<String>>)
    ensures
        r matches Some(raw) ==> json_array_items(bytes@) == Some(text_views(raw@)),
        r is None ==> json_array_items(bytes@) is None,
{
    let raw: Vec<&serde_json::value::RawValue> = serde_json::from_slice(bytes).ok()?;
    Some(raw.into_iter().map(|value| value.get().to_owned()).collect())
}

/// Calls `serde_json::from_str` for a string; `None` stands for its error.
/// Trusted: the result is a function of the text alone, named
/// `json_string_value`.
#[verifier::external_body]
fn json_string(raw: &str) -> (r: Option<String>)
    ensures
        r matches Some(text) ==> json_string_value(raw@) == Some(text@),
        r is None ==> json_string_value(raw@) is None,
{
    serde_json::from_str::<String>(raw).ok()
}

/// Decodes the field `index` of a record as a quoted string.
fn text_field(raw: &Vec<String>, index: usize) -> (r: Result<String, Error>)
    requires
        index < raw@.len(),
    ensures
        text_result_view(r) == text_at(text_views(raw@), index as int),
{
    match json_string(raw[index].as_str()) {
        Some(text) => Ok(text),
        None => Err(Error::FieldDecode),
    }
}

/// Makes the item that raw fields describe.
///
/// Returns `Error::FieldShape` unless there are exactly twenty fields, and
/// else the item, or the error of the first field, in the order in which
/// they are read, that cannot be read.
pub fn item_from_raw(raw: &Vec<String>) -> (r: Result<Item, Error>)
    ensures
        item_result_view(r) == raw_item(text_views(raw@)),
        r matches Ok(item) ==> item@.wf(),
{
    if raw.len() != FIELDS {
        return Err(Error::FieldShape);
    }
    let channel = text_field(raw, 0)?;
    let topic = text_field(raw, 1)?;
    let title = text_field(raw, 2)?;
    let date_text = text_field(raw, 3)?;
    let date = parse_date(date_text.as_str())?;
    let time_text = text_field(raw, 4)?;
    let time = parse_time(time_text.as_str())?;
    let duration_text = text_field(raw, 5)?;
    let duration = parse_time(duration_text.as_str())?;
    let description = text_field(raw, 7)?;
    let website = text_field(raw, 9)?;
    let url = text_field(raw, 8)?;
    let small = text_field(raw, 12)?;
    let url_small = parse_url_suffix(url.as_str(), small)?;
    let large = text_field(raw, 14)?;
    let url_large = parse_url_suffix(url.as_str(), large)?;
    Ok(
        Item {
            channel,
            topic,
            title,
            date,
            time,
            duration,
            description,
            website,
            url,
            url_small,
            url_large,
        },
    )
}

/// Makes the item that the bytes of a record's array describe.
///
/// Returns `Error::FieldShape` unless the bytes hold a JSON array of exactly
/// twenty values, and else what `item_from_raw` returns for them.
pub fn parse_fields(fields: &[u8]) -> (r: Result<Item, Error>)
    ensures
        item_result_view(r) == record_item(fields@),
        r matches Ok(item) ==> item@.wf(),
{
    proof {
        reveal(record_item);
    }
    match json_array(fields) {
        Some(raw) => item_from_raw(&raw),
        None => Err(Error::FieldShape),
    }
}

/// Parses a record that another one follows from `input`, the bytes of a
/// document from the start of a record.
///
/// Returns the index at which the next record begins together with the item,
/// `Ok(None)` where more bytes are needed, and the error of the scan or of the
/// record's fields.
pub fn parse_item(input: &[u8]) -> (r: Result<Option<(usize, Item)>, Error>)
    ensures
        item_scan_view(r) == item_scan(input@),
        r matches Ok(Some((_, item))) ==> item@.wf(),
{
    match scan_item(input) {
        Ok(Some((next, fields))) => match parse_fields(fields) {
            Ok(item) => Ok(Some((next, item))),
            Err(e) => Err(e),
        },
        Ok(None) => Ok(None),
        Err(e) => Err(e),
    }
}

/// Parses the last record from `input`, all the bytes of a document from the
/// start of its last record.
///
/// Returns the item, `Error::MalformedEnvelope` where `input` does not begin
/// as a record does or does not end as a document does, and else the error
/// of the record's fields.
pub fn parse_last_item(input: &[u8]) -> (r: Result<Item, Error>)
    ensures
        item_result_view(r) == last_item(input@),
        r matches Ok(item) ==> item@.wf(),
{
    match scan_last_item(input) {
        Ok(fields) => parse_fields(fields),
        Err(e) => Err(e),
    }
}

} // verus!
