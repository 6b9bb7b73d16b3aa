//! The dataset loader: a pure transform from the raw bytes of the bundled
//! reference table to the ordered sequence of typed records.
//!
//! The table is UTF-8 text, one record per line, fields separated by
//! commas. Lines end with a line feed, optionally preceded by a carriage
//! return; blank lines carry no record and are skipped. The first kept
//! line must be exactly the header naming the six record fields. Every
//! data line must have exactly six fields. A field that is not valid
//! UTF-8 fails the whole load with [`BinDbError::DecodeError`]; a data
//! line with the wrong field count fails it with
//! [`BinDbError::ParseError`]. There is no per-row skip-and-continue: a
//! single bad row invalidates the dataset.

use vstd::prelude::*;
use vstd::pervasive::unreached;
use vstd::slice::slice_to_vec;
use vstd::utf8::{
    decode_utf8, is_char_boundary_iff_not_is_continuation_byte, is_continuation_byte,
    is_leading_byte_width_1, length_of_first_scalar, pop_first_scalar, valid_first_scalar,
    valid_utf8, valid_utf8_concat, valid_utf8_split,
};
use crate::split::{
    bytes_eq, lemma_first_occurrence, lemma_split_at_first, lemma_split_no_delim, split_bytes,
    split_on, COMMA, CR, LF,
};

verus! {

/// One reference-dataset row: a BIN digit string and the card-network and
/// country metadata associated with it.
pub struct BinRecord {
    /// The BIN digit string, the natural identifier of the row.
    pub bin: String,
    /// Card network / brand name.
    pub brand: String,
    /// Card product type.
    pub card_type: String,
    /// Human-readable issuing country.
    pub country_name: String,
    /// Three-letter ISO country code.
    pub iso_code_3: String,
    /// Two-letter ISO country code.
    pub iso_code_2: String,
}

/// The mathematical model of a record: its six fields as character
/// sequences.
pub struct BinRecordModel {
    pub bin: Seq<char>,
    pub brand: Seq<char>,
    pub card_type: Seq<char>,
    pub country_name: Seq<char>,
    pub iso_code_3: Seq<char>,
    pub iso_code_2: Seq<char>,
}

impl View for BinRecord {
    type V = BinRecordModel;

    open spec fn view(&self) -> BinRecordModel {
        BinRecordModel {
            bin: self.bin@,
            brand: self.brand@,
            card_type: self.card_type@,
            country_name: self.country_name@,
            iso_code_3: self.iso_code_3@,
            iso_code_2: self.iso_code_2@,
        }
    }
}

impl DeepView for BinRecord {
    type V = BinRecordModel;

    open spec fn deep_view(&self) -> BinRecordModel {
        self.view()
    }
}

impl PartialEq for BinRecord {
    /// Record equality is field-by-field equality of all six fields.
    fn eq(&self, other: &Self) -> (r: bool) {
        self.bin == other.bin && self.brand == other.brand && self.card_type == other.card_type
            && self.country_name == other.country_name && self.iso_code_3 == other.iso_code_3
            && self.iso_code_2 == other.iso_code_2
    }
}

impl vstd::std_specs::cmp::PartialEqSpecImpl for BinRecord {
    open spec fn obeys_eq_spec() -> bool {
        true
    }

    open spec fn eq_spec(&self, other: &Self) -> bool {
        self@ == other@
    }
}

impl Eq for BinRecord {}

impl Clone for BinRecord {
    fn clone(&self) -> (r: Self)
        ensures
            r@ == self@,
    {
        BinRecord {
            bin: self.bin.clone(),
            brand: self.brand.clone(),
            card_type: self.card_type.clone(),
            country_name: self.country_name.clone(),
            iso_code_3: self.iso_code_3.clone(),
            iso_code_2: self.iso_code_2.clone(),
        }
    }
}

/// Why a load failed. Every variant is fatal: no partial index is ever
/// published.
#[derive(Clone, Copy, Debug, PartialEq, Eq, Structural)]
pub enum BinDbError {
    /// The bundled dataset was not found at all.
    ResourceMissing,
    /// Some field of the dataset is not valid UTF-8 text.
    DecodeError,
    /// A line does not conform to the expected column schema. `row` is the
    /// index of the offending line among the kept (non-blank) lines, with
    /// 0 standing for a missing or mismatched header.
    ParseError { row: usize },
}

/// A line with a trailing carriage return shed of it: line feeds alone
/// terminate rows, but a carriage return directly before one is tolerated.
pub open spec fn strip_cr(line: Seq<u8>) -> Seq<u8> {
    if line.len() > 0 && line.last() == CR {
        line.drop_last()
    } else {
        line
    }
}

/// The lines that carry content: each raw line shed of a trailing
/// carriage return, with blank lines dropped, in order.
pub open spec fn kept_lines(lines: Seq<Seq<u8>>) -> Seq<Seq<u8>>
    decreases lines.len(),
{
    if lines.len() == 0 {
        Seq::empty()
    } else {
        let prev = kept_lines(lines.drop_last());
        let l = strip_cr(lines.last());
        if l.len() == 0 {
            prev
        } else {
            prev.push(l)
        }
    }
}

/// The content-carrying lines of the raw dataset bytes.
pub open spec fn dataset_lines(bytes: Seq<u8>) -> Seq<Seq<u8>> {
    kept_lines(split_bytes(bytes, LF))
}

/// The fields of one line, split on commas.
pub open spec fn line_fields(line: Seq<u8>) -> Seq<Seq<u8>> {
    split_bytes(line, COMMA)
}

/// True when every field of the line is valid UTF-8.
pub open spec fn line_decodes(line: Seq<u8>) -> bool {
    forall|k: int|
        0 <= k < line_fields(line).len() ==> valid_utf8(#[trigger] line_fields(line)[k])
}

/// True when every field of every kept line is valid UTF-8. Since the
/// line and field delimiters are themselves ASCII, this holds exactly
/// when the dataset bytes as a whole are valid UTF-8 text
/// ([`lemma_decode_ok_is_valid_utf8`]).
pub open spec fn decode_ok(bytes: Seq<u8>) -> bool {
    forall|j: int|
        0 <= j < dataset_lines(bytes).len() ==> line_decodes(#[trigger] dataset_lines(bytes)[j])
}

/// The exact bytes the header line must consist of: the six column names,
/// comma-separated, in this order.
pub open spec fn header_bytes() -> Seq<u8> {
    vstd::utf8::encode_utf8("BIN,Brand,Type,CountryName,isoCode3,isoCode2"@)
}

/// True when the dataset has a first kept line and it is exactly the
/// expected header.
pub open spec fn header_ok(bytes: Seq<u8>) -> bool {
    dataset_lines(bytes).len() >= 1 && dataset_lines(bytes)[0] == header_bytes()
}

/// True when a data line has exactly the six expected fields.
pub open spec fn row_ok(line: Seq<u8>) -> bool {
    line_fields(line).len() == 6
}

/// True when every data line (every kept line after the header) has
/// exactly six fields.
pub open spec fn rows_ok(bytes: Seq<u8>) -> bool {
    forall|j: int|
        1 <= j < dataset_lines(bytes).len() ==> row_ok(#[trigger] dataset_lines(bytes)[j])
}

/// True when the dataset bytes are a well-formed reference table: all
/// fields decode, the header is present and exact, and every data line
/// has six fields.
pub open spec fn dataset_ok(bytes: Seq<u8>) -> bool {
    decode_ok(bytes) && header_ok(bytes) && rows_ok(bytes)
}

/// The record a well-formed data line denotes: its six fields, decoded
/// from UTF-8, in column order.
pub open spec fn record_of_line(line: Seq<u8>) -> BinRecordModel
    recommends
        row_ok(line),
{
    let f = line_fields(line);
    BinRecordModel {
        bin: decode_utf8(f[0]),
        brand: decode_utf8(f[1]),
        card_type: decode_utf8(f[2]),
        country_name: decode_utf8(f[3]),
        iso_code_3: decode_utf8(f[4]),
        iso_code_2: decode_utf8(f[5]),
    }
}

/// The ordered sequence of records a well-formed dataset denotes: one per
/// data line, in file order, duplicates not filtered.
pub open spec fn dataset_records(bytes: Seq<u8>) -> Seq<BinRecordModel>
    recommends
        dataset_ok(bytes),
{
    let ls = dataset_lines(bytes);
    if ls.len() == 0 {
        Seq::empty()
    } else {
        Seq::new((ls.len() - 1) as nat, |i: int| record_of_line(ls[i + 1]))
    }
}

proof fn lemma_ascii_head(s: Seq<u8>)
    requires
        s.len() > 0,
        s[0] < 0x80,
    ensures
        valid_first_scalar(s),
        length_of_first_scalar(s) == 1,
{
    assert(is_leading_byte_width_1(s[0]));
    let b = s[0];
    assert(b & 0x7f == b && b & 0x7f <= 0x7f) by (bit_vector)
        requires
            b < 0x80,
    ;
}

proof fn lemma_ascii_singleton_valid(d: u8)
    requires
        d < 0x80,
    ensures
        valid_utf8(seq![d]),
{
    let s = seq![d];
    lemma_ascii_head(s);
    assert(pop_first_scalar(s) =~= Seq::<u8>::empty());
    assert(valid_utf8(Seq::<u8>::empty()));
}

proof fn lemma_tail_after_ascii(s: Seq<u8>)
    requires
        valid_utf8(s),
        s.len() > 0,
        s[0] < 0x80,
    ensures
        valid_utf8(s.drop_first()),
{
    lemma_ascii_head(s);
    assert(pop_first_scalar(s) =~= s.drop_first());
}

/// Every piece of a valid UTF-8 byte string split on an ASCII delimiter
/// is itself valid UTF-8: the delimiter byte always sits on a character
/// boundary.
proof fn lemma_split_all_valid(s: Seq<u8>, d: u8)
    requires
        valid_utf8(s),
        d < 0x80,
    ensures
        forall|k: int|
            0 <= k < split_bytes(s, d).len() ==> valid_utf8(#[trigger] split_bytes(s, d)[k]),
    decreases s.len(),
{
    if exists|j: int| 0 <= j < s.len() && s[j] == d {
        let i = lemma_first_occurrence(s, d);
        lemma_split_at_first(s, d, i);
        assert(!is_continuation_byte(s[i]));
        is_char_boundary_iff_not_is_continuation_byte(s, i);
        valid_utf8_split(s, i);
        let head = s.subrange(0, i);
        let tail = s.subrange(i, s.len() as int);
        assert(valid_utf8(head) && valid_utf8(tail));
        assert(tail[0] == d);
        lemma_tail_after_ascii(tail);
        assert(tail.drop_first() =~= s.skip(i + 1));
        lemma_split_all_valid(s.skip(i + 1), d);
        assert(s.take(i) =~= head);
        let rest = split_bytes(s.skip(i + 1), d);
        assert forall|k: int| 0 <= k < split_bytes(s, d).len() implies valid_utf8(
            #[trigger] split_bytes(s, d)[k],
        ) by {
            if k == 0 {
                assert(split_bytes(s, d)[0] == s.take(i));
            } else {
                assert(split_bytes(s, d)[k] == rest[k - 1]);
            }
        }
    } else {
        assert(forall|j: int| 0 <= j < s.len() ==> s[j] != d);
        lemma_split_no_delim(s, d);
        assert(split_bytes(s, d)[0] == s);
    }
}

/// The converse join: a byte string all of whose pieces under an ASCII
/// delimiter are valid UTF-8 is valid UTF-8 as a whole.
proof fn lemma_join_split(s: Seq<u8>, d: u8)
    requires
        d < 0x80,
        forall|k: int|
            0 <= k < split_bytes(s, d).len() ==> valid_utf8(#[trigger] split_bytes(s, d)[k]),
    ensures
        valid_utf8(s),
    decreases s.len(),
{
    if exists|j: int| 0 <= j < s.len() && s[j] == d {
        let i = lemma_first_occurrence(s, d);
        lemma_split_at_first(s, d, i);
        let rest = split_bytes(s.skip(i + 1), d);
        assert forall|k: int| 0 <= k < rest.len() implies valid_utf8(#[trigger] rest[k]) by {
            assert(rest[k] == split_bytes(s, d)[k + 1]);
        }
        lemma_join_split(s.skip(i + 1), d);
        lemma_ascii_singleton_valid(d);
        assert(valid_utf8(s.take(i))) by {
            assert(split_bytes(s, d)[0] == s.take(i));
        }
        valid_utf8_concat(s.take(i), seq![d]);
        valid_utf8_concat(s.take(i) + seq![d], s.skip(i + 1));
        assert(s.take(i) + seq![d] + s.skip(i + 1) =~= s);
    } else {
        assert(forall|j: int| 0 <= j < s.len() ==> s[j] != d);
        lemma_split_no_delim(s, d);
        assert(split_bytes(s, d)[0] == s);
    }
}

proof fn lemma_strip_cr_valid(l: Seq<u8>)
    requires
        valid_utf8(l),
    ensures
        valid_utf8(strip_cr(l)),
{
    if l.len() > 0 && l.last() == CR {
        assert(!is_continuation_byte(l[l.len() - 1]));
        is_char_boundary_iff_not_is_continuation_byte(l, l.len() - 1);
        valid_utf8_split(l, l.len() - 1);
        assert(l.drop_last() =~= l.subrange(0, l.len() - 1));
    }
}

proof fn lemma_strip_cr_valid_rev(l: Seq<u8>)
    requires
        valid_utf8(strip_cr(l)),
    ensures
        valid_utf8(l),
{
    if l.len() > 0 && l.last() == CR {
        lemma_ascii_singleton_valid(CR);
        valid_utf8_concat(l.drop_last(), seq![CR]);
        assert(l.drop_last() + seq![CR] =~= l);
    }
}

proof fn lemma_kept_lines_valid(lines: Seq<Seq<u8>>)
    requires
        forall|j: int| 0 <= j < lines.len() ==> valid_utf8(#[trigger] lines[j]),
    ensures
        forall|k: int|
            0 <= k < kept_lines(lines).len() ==> valid_utf8(#[trigger] kept_lines(lines)[k]),
    decreases lines.len(),
{
    if lines.len() > 0 {
        lemma_kept_lines_valid(lines.drop_last());
        lemma_strip_cr_valid(lines.last());
        let prev = kept_lines(lines.drop_last());
        assert forall|k: int| 0 <= k < kept_lines(lines).len() implies valid_utf8(
            #[trigger] kept_lines(lines)[k],
        ) by {
            if k < prev.len() {
                assert(kept_lines(lines)[k] == prev[k]);
            } else {
                assert(kept_lines(lines)[k] == strip_cr(lines.last()));
            }
        }
    }
}

proof fn lemma_kept_lines_valid_rev(lines: Seq<Seq<u8>>)
    requires
        forall|k: int|
            0 <= k < kept_lines(lines).len() ==> valid_utf8(#[trigger] kept_lines(lines)[k]),
    ensures
        forall|j: int| 0 <= j < lines.len() ==> valid_utf8(#[trigger] lines[j]),
    decreases lines.len(),
{
    if lines.len() > 0 {
        let prev = kept_lines(lines.drop_last());
        let l = lines.last();
        let stripped = strip_cr(l);
        assert forall|k: int| 0 <= k < prev.len() implies valid_utf8(#[trigger] prev[k]) by {
            assert(prev[k] == kept_lines(lines)[k]);
        }
        lemma_kept_lines_valid_rev(lines.drop_last());
        if stripped.len() == 0 {
            if l.len() == 0 {
                assert(valid_utf8(l));
            } else {
                assert(l.last() == CR && l.len() == 1);
                lemma_ascii_singleton_valid(CR);
                assert(l =~= seq![CR]);
            }
        } else {
            assert(kept_lines(lines).last() == stripped);
            assert(valid_utf8(stripped));
            lemma_strip_cr_valid_rev(l);
        }
        assert forall|j: int| 0 <= j < lines.len() implies valid_utf8(#[trigger] lines[j]) by {
            if j < lines.len() - 1 {
                assert(lines[j] == lines.drop_last()[j]);
            }
        }
    }
}

/// Law: the field-wise decode condition coincides with UTF-8 validity of
/// the dataset bytes as a whole. The row and field delimiters are ASCII,
/// so they always sit on character boundaries: every field of every kept
/// line decodes exactly when the raw bytes are one valid UTF-8 text. A
/// load therefore fails with [`BinDbError::DecodeError`] precisely on
/// input that is not valid UTF-8.
pub proof fn lemma_decode_ok_is_valid_utf8(bytes: Seq<u8>)
    ensures
        decode_ok(bytes) <==> valid_utf8(bytes),
{
    let lines = split_bytes(bytes, LF);
    if valid_utf8(bytes) {
        lemma_split_all_valid(bytes, LF);
        lemma_kept_lines_valid(lines);
        assert forall|j: int| 0 <= j < dataset_lines(bytes).len() implies line_decodes(
            #[trigger] dataset_lines(bytes)[j],
        ) by {
            lemma_split_all_valid(dataset_lines(bytes)[j], COMMA);
        }
    }
    if decode_ok(bytes) {
        assert forall|k: int| 0 <= k < kept_lines(lines).len() implies valid_utf8(
            #[trigger] kept_lines(lines)[k],
        ) by {
            let line = kept_lines(lines)[k];
            assert(line_decodes(dataset_lines(bytes)[k]));
            assert forall|k2: int| 0 <= k2 < split_bytes(line, COMMA).len() implies valid_utf8(
                #[trigger] split_bytes(line, COMMA)[k2],
            ) by {
                assert(valid_utf8(line_fields(line)[k2]));
            }
            lemma_join_split(line, COMMA);
        }
        lemma_kept_lines_valid_rev(lines);
        lemma_join_split(bytes, LF);
    }
}

/// The exact condition under which a load of the given dataset bytes
/// owes the given error: a decode failure when some field is not valid
/// UTF-8; otherwise a parse failure naming the first offending kept line
/// (0 for a missing or mismatched header). A missing resource is not the
/// loader's to report: it is handed bytes that were already found.
pub open spec fn load_failure(bytes: Seq<u8>, e: BinDbError) -> bool {
    match e {
        BinDbError::DecodeError => !decode_ok(bytes),
        BinDbError::ParseError { row } => decode_ok(bytes) && ((row == 0 && !header_ok(bytes)) || (
        1 <= row < dataset_lines(bytes).len() && header_ok(bytes) && !row_ok(
            dataset_lines(bytes)[row as int],
        ) && (forall|j: int| 1 <= j < row ==> row_ok(#[trigger] dataset_lines(bytes)[j])))),
        BinDbError::ResourceMissing => false,
    }
}

/// Relies on `core::str::from_utf8`: it returns `Ok` exactly when the
/// byte slice is valid UTF-8.
#[verifier::external_body]
fn utf8_ok(b: &[u8]) -> (r: bool)
    ensures
        r == valid_utf8(b@),
{
    core::str::from_utf8(b).is_ok()
}

/// Relies on `String::from_utf8`: it returns `Ok` exactly when the bytes
/// are valid UTF-8, and then the returned string consists of exactly
/// those bytes, so its characters are their UTF-8 decoding.
#[verifier::external_body]
fn try_decode(b: Vec<u8>) -> (r: Option<String>)
    ensures
        r is Some <==> valid_utf8(b@),
        r matches Some(s) ==> s@ == decode_utf8(b@),
{
    match String::from_utf8(b) {
        Ok(s) => Some(s),
        Err(_) => None,
    }
}

/// Decodes one field already known to be valid UTF-8.
fn decode_field(f: Vec<u8>) -> (r: String)
    requires
        valid_utf8(f@),
    ensures
        r@ == decode_utf8(f@),
{
    match try_decode(f) {
        Some(s) => s,
        None => unreached(),
    }
}

/// Sheds trailing carriage returns and drops blank lines.
fn keep_lines(lines: &Vec<Vec<u8>>) -> (r: Vec<Vec<u8>>)
    ensures
        r.deep_view() == kept_lines(lines.deep_view()),
{
    let mut r: Vec<Vec<u8>> = Vec::new();
    let mut i: usize = 0;
    proof {
        assert(lines.deep_view().take(0) =~= Seq::<Seq<u8>>::empty());
    }
    while i < lines.len()
        invariant
            i <= lines@.len(),
            r.deep_view() == kept_lines(lines.deep_view().take(i as int)),
        decreases lines@.len() - i,
    {
        let ghost prev = r.deep_view();
        let mut line: Vec<u8> = slice_to_vec((&lines[i]).as_slice());
        proof {
            assert(line@ == lines.deep_view()[i as int]);
        }
        if line.len() > 0 && line[line.len() - 1] == CR {
            line.pop();
            proof {
                assert(line@ =~= strip_cr(lines.deep_view()[i as int]));
            }
        }
        proof {
            assert(line@ == strip_cr(lines.deep_view()[i as int]));
        }
        if line.len() > 0 {
            let ghost lv = line@;
            r.push(line);
            proof {
                assert(r.deep_view() =~~= prev.push(lv));
            }
        }
        proof {
            let t1 = lines.deep_view().take(i + 1);
            assert(t1.drop_last() =~= lines.deep_view().take(i as int));
            assert(t1.last() == lines.deep_view()[i as int]);
            assert(r.deep_view() == kept_lines(t1));
        }
        i = i + 1;
    }
    proof {
        assert(lines.deep_view().take(lines@.len() as int) =~= lines.deep_view());
    }
    r
}

/// True when every field of every given line is valid UTF-8.
fn lines_decode(clean: &Vec<Vec<u8>>) -> (r: bool)
    ensures
        r == (forall|j: int|
            0 <= j < clean.deep_view().len() ==> line_decodes(#[trigger] clean.deep_view()[j])),
{
    let mut j: usize = 0;
    while j < clean.len()
        invariant
            j <= clean@.len(),
            forall|j2: int| 0 <= j2 < j ==> line_decodes(#[trigger] clean.deep_view()[j2]),
        decreases clean@.len() - j,
    {
        let lj = &clean[j];
        let fields = split_on(lj.as_slice(), COMMA);
        proof {
            assert(clean.deep_view()[j as int] =~= lj@);
            assert(fields.deep_view() == line_fields(clean.deep_view()[j as int]));
        }
        let mut k: usize = 0;
        while k < fields.len()
            invariant
                k <= fields@.len(),
                fields.deep_view() == line_fields(clean.deep_view()[j as int]),
                j < clean@.len(),
                forall|k2: int|
                    0 <= k2 < k ==> valid_utf8(
                        #[trigger] line_fields(clean.deep_view()[j as int])[k2],
                    ),
            decreases fields@.len() - k,
        {
            let fk = &fields[k];
            proof {
                assert(fields.deep_view()[k as int] =~= fk@);
            }
            if !utf8_ok(fk.as_slice()) {
                proof {
                    assert(!valid_utf8(line_fields(clean.deep_view()[j as int])[k as int]));
                    assert(!line_decodes(clean.deep_view()[j as int]));
                }
                return false;
            }
            k = k + 1;
        }
        proof {
            assert(line_decodes(clean.deep_view()[j as int]));
        }
        j = j + 1;
    }
    true
}

/// Parses the raw dataset bytes into the ordered sequence of records, in
/// file order, duplicates kept.
///
/// Succeeds exactly on well-formed input. On failure the error says which
/// stage broke: [`BinDbError::DecodeError`] when some field is not valid
/// UTF-8, and otherwise [`BinDbError::ParseError`] naming the first kept
/// line that breaks the column schema (0 for a missing or mismatched
/// header).
pub fn parse_records(data: &[u8]) -> (r: Result<Vec<BinRecord>, BinDbError>)
    ensures
        r is Ok <==> dataset_ok(data@),
        match r {
            Ok(recs) => recs.deep_view() == dataset_records(data@),
            Err(e) => load_failure(data@, e),
        },
{
    let lines = split_on(data, LF);
    let clean = keep_lines(&lines);
    proof {
        assert(clean.deep_view() == dataset_lines(data@));
    }
    if !lines_decode(&clean) {
        return Err(BinDbError::DecodeError);
    }
    if clean.len() == 0 {
        return Err(BinDbError::ParseError { row: 0 });
    }
    let l0 = &clean[0];
    proof {
        assert(clean.deep_view()[0] =~= l0@);
    }
    if !bytes_eq(l0.as_slice(), "BIN,Brand,Type,CountryName,isoCode3,isoCode2".as_bytes()) {
        return Err(BinDbError::ParseError { row: 0 });
    }
    proof {
        assert(header_ok(data@));
    }
    let mut recs: Vec<BinRecord> = Vec::new();
    let mut i: usize = 1;
    while i < clean.len()
        invariant
            1 <= i <= clean@.len(),
            clean.deep_view() == dataset_lines(data@),
            decode_ok(data@),
            header_ok(data@),
            forall|j: int| 1 <= j < i ==> row_ok(#[trigger] dataset_lines(data@)[j]),
            recs.deep_view().len() == i - 1,
            forall|j: int|
                0 <= j < i - 1 ==> recs.deep_view()[j] == record_of_line(
                    #[trigger] dataset_lines(data@)[j + 1],
                ),
        decreases clean@.len() - i,
    {
        let ghost line = dataset_lines(data@)[i as int];
        let li = &clean[i];
        let mut fields = split_on(li.as_slice(), COMMA);
        proof {
            assert(clean.deep_view()[i as int] =~= li@);
            assert(fields.deep_view() == line_fields(line));
        }
        if fields.len() != 6 {
            proof {
                assert(!row_ok(line));
            }
            return Err(BinDbError::ParseError { row: i });
        }
        proof {
            assert(line_decodes(line));
            assert(forall|k: int| 0 <= k < 6 ==> valid_utf8(#[trigger] line_fields(line)[k]));
        }
        let f5 = fields.pop().unwrap();
        let f4 = fields.pop().unwrap();
        let f3 = fields.pop().unwrap();
        let f2 = fields.pop().unwrap();
        let f1 = fields.pop().unwrap();
        let f0 = fields.pop().unwrap();
        proof {
            assert(f0@ =~= line_fields(line)[0]);
            assert(f1@ =~= line_fields(line)[1]);
            assert(f2@ =~= line_fields(line)[2]);
            assert(f3@ =~= line_fields(line)[3]);
            assert(f4@ =~= line_fields(line)[4]);
            assert(f5@ =~= line_fields(line)[5]);
        }
        let rec = BinRecord {
            bin: decode_field(f0),
            brand: decode_field(f1),
            card_type: decode_field(f2),
            country_name: decode_field(f3),
            iso_code_3: decode_field(f4),
            iso_code_2: decode_field(f5),
        };
        proof {
            assert(rec@ == record_of_line(line));
        }
        let ghost prev = recs.deep_view();
        recs.push(rec);
        proof {
            assert(recs.deep_view() =~~= prev.push(record_of_line(line)));
        }
        i = i + 1;
    }
    proof {
        assert(recs.deep_view() =~= dataset_records(data@));
    }
    Ok(recs)
}

} // verus!
