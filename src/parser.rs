use vstd::prelude::*;
use crate::record::Record;
use crate::xml::{TagEvent, TagView, tag_views, document_tokens, unescaped_text, text_content, tokenize};

verus! {

/// Why a document could not be turned into records. Each of these ends the
/// whole run: no record of a document that fails is handed on.
#[derive(Debug, Clone, PartialEq, Eq)]
pub enum ParseError {
    /// The markup itself could not be tokenized.
    Malformed,
    /// The text of an "id" or "number" element is not UTF-8 or holds a
    /// broken entity; it carries the raw bytes.
    BadText(Vec<u8>),
    /// The text of an "id" element is not an unsigned 32-bit decimal.
    BadId(String),
}

/// The mathematical value of a parse error.
pub enum ParseErrorView {
    Malformed,
    BadText(Seq<u8>),
    BadId(Seq<char>),
}

impl View for ParseError {
    type V = ParseErrorView;

    open spec fn view(&self) -> ParseErrorView {
        match self {
            ParseError::Malformed => ParseErrorView::Malformed,
            ParseError::BadText(b) => ParseErrorView::BadText(b@),
            ParseError::BadId(s) => ParseErrorView::BadId(s@),
        }
    }
}

/// Which element's text the next token is taken as, if any.
#[derive(Debug, Clone, Copy, PartialEq, Eq)]
pub enum Field {
    Nothing,
    Id,
    Number,
}

/// The state of extraction after a prefix of the document: the values last
/// seen for each field (carried over from row to row), the field whose text
/// comes next, and the rows closed so far, as (identifier, number) pairs.
pub struct ParseModel {
    pub id: u32,
    pub number: Seq<char>,
    pub awaiting: Field,
    pub rows: Seq<(u32, Seq<char>)>,
}

pub open spec fn is_digit(c: char) -> bool {
    '0' <= c && c <= '9'
}

/// The value of a string of decimal digits.
pub open spec fn digits_value(s: Seq<char>) -> int
    decreases s.len(),
{
    if s.len() == 0 {
        0
    } else {
        10 * digits_value(s.drop_last()) + (s.last() as int - '0' as int)
    }
}

/// How std reads an unsigned 32-bit decimal: an optional `+`, then one or
/// more ASCII digits whose value fits.
pub open spec fn decimal_u32(s: Seq<char>) -> Option<u32> {
    let d = if s.len() > 0 && s[0] == '+' { s.drop_first() } else { s };
    if d.len() > 0 && (forall|i: int| 0 <= i < d.len() ==> is_digit(#[trigger] d[i]))
        && digits_value(d) <= u32::MAX {
        Some(digits_value(d) as u32)
    } else {
        None
    }
}

/// Relies on `str::parse::<u32>` (`u32::from_str`), whose documented
/// grammar is an optional `+` followed by decimal digits, without overflow.
#[verifier::external_body]
fn parse_u32(s: &str) -> (r: Option<u32>)
    ensures
        r == decimal_u32(s@),
{
    s.parse::<u32>().ok()
}

/// Relies on `std::time::SystemTime::now` turned into chrono's
/// `DateTime<Utc>` (which also takes clocks set before 1970) and read with
/// `timestamp_micros`: the wall-clock time, in microseconds since the Unix
/// epoch.
#[verifier::external_body]
fn now_micros() -> i64 {
    chrono::DateTime::<chrono::Utc>::from(std::time::SystemTime::now()).timestamp_micros()
}

pub open spec fn id_tag() -> Seq<u8> {
    seq![105u8, 100u8]
}

pub open spec fn number_tag() -> Seq<u8> {
    seq![110u8, 117u8, 109u8, 98u8, 101u8, 114u8]
}

pub open spec fn row_tag() -> Seq<u8> {
    seq![114u8, 111u8, 119u8]
}

pub open spec fn initial_model() -> ParseModel {
    ParseModel { id: 0, number: Seq::empty(), awaiting: Field::Nothing, rows: Seq::empty() }
}

/// One token's effect on the extraction state.
pub open spec fn step(s: ParseModel, ev: TagView) -> Result<ParseModel, ParseErrorView> {
    match s.awaiting {
        Field::Id => match ev {
            TagView::Text(raw) => match unescaped_text(raw) {
                None => Err(ParseErrorView::BadText(raw)),
                Some(t) => match decimal_u32(t) {
                    None => Err(ParseErrorView::BadId(t)),
                    Some(v) => Ok(ParseModel { id: v, awaiting: Field::Nothing, ..s }),
                },
            },
            _ => Ok(ParseModel { awaiting: Field::Nothing, ..s }),
        },
        Field::Number => match ev {
            TagView::Text(raw) => match unescaped_text(raw) {
                None => Err(ParseErrorView::BadText(raw)),
                Some(t) => Ok(ParseModel { number: t, awaiting: Field::Nothing, ..s }),
            },
            _ => Ok(ParseModel { awaiting: Field::Nothing, ..s }),
        },
        Field::Nothing => match ev {
            TagView::Start(n) => if n == id_tag() {
                Ok(ParseModel { awaiting: Field::Id, ..s })
            } else if n == number_tag() {
                Ok(ParseModel { awaiting: Field::Number, ..s })
            } else {
                Ok(s)
            },
            TagView::End(n) => if n == row_tag() {
                Ok(ParseModel { rows: s.rows.push((s.id, s.number)), ..s })
            } else {
                Ok(s)
            },
            TagView::Empty(n) => if n == row_tag() {
                Ok(ParseModel { rows: s.rows.push((s.id, s.number)), ..s })
            } else {
                Ok(s)
            },
            _ => Ok(s),
        },
    }
}

/// The extraction state after the tokens `evs`, from state `s`.
pub open spec fn run_from(s: ParseModel, evs: Seq<TagView>) -> Result<ParseModel, ParseErrorView>
    decreases evs.len(),
{
    if evs.len() == 0 {
        Ok(s)
    } else {
        match run_from(s, evs.drop_last()) {
            Err(e) => Err(e),
            Ok(m) => step(m, evs.last()),
        }
    }
}

/// The extraction state after the tokens `evs` of a whole document.
pub open spec fn run(evs: Seq<TagView>) -> Result<ParseModel, ParseErrorView> {
    run_from(initial_model(), evs)
}

/// The (identifier, number) pairs of records.
pub open spec fn pairs_of(rs: Seq<Record>) -> Seq<(u32, Seq<char>)> {
    rs.map_values(|r: Record| (r.id, r.number@))
}

/// A step does not look at the rows closed before it; it appends at most one.
pub proof fn lemma_step_appends(s: ParseModel, ev: TagView)
    ensures
        match step(ParseModel { rows: Seq::empty(), ..s }, ev) {
            Err(e) => step(s, ev) == Err::<ParseModel, ParseErrorView>(e),
            Ok(m) => m.rows.len() <= 1 && step(s, ev) == Ok::<ParseModel, ParseErrorView>(
                ParseModel { rows: s.rows + m.rows, ..m },
            ),
        },
{
    assert(s.rows + Seq::<(u32, Seq<char>)>::empty() =~= s.rows);
    let e = Seq::<(u32, Seq<char>)>::empty();
    assert(s.rows + e.push((s.id, s.number)) =~= s.rows.push((s.id, s.number)));
}

/// Once a prefix of the tokens fails, the whole sequence fails the same way.
pub proof fn lemma_error_sticks(s: ParseModel, evs: Seq<TagView>, k: int)
    requires
        0 <= k <= evs.len(),
        run_from(s, evs.take(k)) is Err,
    ensures
        run_from(s, evs) == run_from(s, evs.take(k)),
    decreases evs.len(),
{
    if k == evs.len() {
        assert(evs.take(k) =~= evs);
    } else {
        assert(evs.drop_last().take(k) =~= evs.take(k));
        lemma_error_sticks(s, evs.drop_last(), k);
    }
}

/// Running one more token is one more step.
pub proof fn lemma_run_push(s: ParseModel, evs: Seq<TagView>, ev: TagView)
    ensures
        run_from(s, evs.push(ev)) == match run_from(s, evs) {
            Err(e) => Err(e),
            Ok(m) => step(m, ev),
        },
{
    assert(evs.push(ev).drop_last() =~= evs);
}

/// Whether a token opens an "id" or a "number" element.
pub open spec fn opens_field(ev: TagView) -> bool {
    ev == TagView::Start(id_tag()) || ev == TagView::Start(number_tag())
}

/// Whether a token closes a "row" element, or is an empty one.
pub open spec fn closes_row(ev: TagView) -> bool {
    ev == TagView::End(row_tag()) || ev == TagView::Empty(row_tag())
}

/// The number of "row" elements that the tokens close.
pub open spec fn row_count(evs: Seq<TagView>) -> nat
    decreases evs.len(),
{
    if evs.len() == 0 {
        0
    } else {
        row_count(evs.drop_last()) + if closes_row(evs.last()) { 1nat } else { 0nat }
    }
}

/// Every "id" and "number" element opened is directly followed by its text.
pub open spec fn fields_have_text(evs: Seq<TagView>) -> bool {
    forall|i: int| 0 <= i < evs.len() && #[trigger] opens_field(evs[i])
        ==> i + 1 < evs.len() && evs[i + 1] is Text
}

/// The state after a prefix waits for a field's text only right after that
/// field was opened.
pub proof fn lemma_awaiting_after_opening(s: ParseModel, evs: Seq<TagView>)
    requires
        s.awaiting == Field::Nothing,
        run_from(s, evs) is Ok,
    ensures
        run_from(s, evs)->Ok_0.awaiting != Field::Nothing ==> evs.len() > 0 && opens_field(evs.last()),
    decreases evs.len(),
{
    if evs.len() > 0 {
        lemma_awaiting_after_opening(s, evs.drop_last());
    }
}

proof fn lemma_rows_counted(evs: Seq<TagView>, k: int)
    requires
        fields_have_text(evs),
        0 <= k <= evs.len(),
        run(evs.take(k)) is Ok,
    ensures
        run(evs.take(k))->Ok_0.rows.len() == row_count(evs.take(k)),
    decreases k,
{
    if k > 0 {
        let p = evs.take(k - 1);
        assert(evs.take(k).drop_last() =~= p);
        lemma_rows_counted(evs, k - 1);
        let m = run(p)->Ok_0;
        if m.awaiting != Field::Nothing {
            lemma_awaiting_after_opening(initial_model(), p);
            assert(p.last() == evs[k - 2]);
            assert(evs[k - 1] is Text);
        }
    }
}

/// On well-formed input, where every "id" and "number" element has its text
/// and every identifier reads as a number, there is exactly one record per
/// "row" element closed, in the order the rows close.
pub proof fn lemma_one_record_per_row(evs: Seq<TagView>)
    requires
        fields_have_text(evs),
        run(evs) is Ok,
    ensures
        run(evs)->Ok_0.rows.len() == row_count(evs),
{
    assert(evs.take(evs.len() as int) =~= evs);
    lemma_rows_counted(evs, evs.len() as int);
}

/// Running two token sequences in turn is running them joined.
pub proof fn lemma_run_concat(s: ParseModel, a: Seq<TagView>, b: Seq<TagView>)
    ensures
        run_from(s, a + b) == match run_from(s, a) {
            Err(e) => Err(e),
            Ok(m) => run_from(m, b),
        },
    decreases b.len(),
{
    if b.len() == 0 {
        assert(a + b =~= a);
    } else {
        assert((a + b).drop_last() =~= a + b.drop_last());
        lemma_run_concat(s, a, b.drop_last());
    }
}

/// Tokens that neither open a field nor close a row leave a state that waits
/// for no text as it is.
proof fn lemma_inert_tokens(m: ParseModel, mid: Seq<TagView>)
    requires
        m.awaiting == Field::Nothing,
        forall|i: int| 0 <= i < mid.len() ==> !opens_field(#[trigger] mid[i]) && !closes_row(mid[i]),
    ensures
        run_from(m, mid) == Ok::<ParseModel, ParseErrorView>(m),
    decreases mid.len(),
{
    if mid.len() > 0 {
        lemma_inert_tokens(m, mid.drop_last());
        assert(!opens_field(mid[mid.len() - 1]) && !closes_row(mid[mid.len() - 1]));
    }
}

/// A row closed with no "id" or "number" element since the row before it
/// repeats that row's identifier and number; it is no error.
pub proof fn lemma_row_values_carry_over(pre: Seq<TagView>, mid: Seq<TagView>)
    requires
        run(pre) is Ok,
        pre.len() > 0,
        closes_row(pre.last()),
        pre.len() == 1 || !opens_field(pre[pre.len() - 2]),
        forall|i: int| 0 <= i < mid.len() ==> !opens_field(#[trigger] mid[i]) && !closes_row(mid[i]),
    ensures
        run(pre + mid.push(TagView::End(row_tag()))) is Ok,
        run(pre)->Ok_0.rows.len() > 0,
        run(pre + mid.push(TagView::End(row_tag())))->Ok_0.rows
            == run(pre)->Ok_0.rows.push(run(pre)->Ok_0.rows.last()),
{
    let p0 = pre.drop_last();
    assert(p0.push(pre.last()) =~= pre);
    lemma_run_push(initial_model(), p0, pre.last());
    let m0 = run(p0)->Ok_0;
    if m0.awaiting != Field::Nothing {
        lemma_awaiting_after_opening(initial_model(), p0);
        assert(p0.last() == pre[pre.len() - 2]);
    }
    let m = run(pre)->Ok_0;
    assert(m.awaiting == Field::Nothing);
    lemma_inert_tokens(m, mid);
    lemma_run_concat(initial_model(), pre, mid.push(TagView::End(row_tag())));
    lemma_run_push(m, mid, TagView::End(row_tag()));
}

/// An "id" whose text is not an unsigned decimal ends extraction of the
/// whole document with that text as the error: no record of it is produced,
/// whatever follows.
pub proof fn lemma_bad_id_aborts(evs: Seq<TagView>, k: int, t: Seq<char>)
    requires
        0 <= k < evs.len(),
        run(evs.take(k)) is Ok,
        run(evs.take(k))->Ok_0.awaiting == Field::Id,
        evs[k] is Text,
        unescaped_text(evs[k]->Text_0) == Some(t),
        decimal_u32(t) is None,
    ensures
        run(evs) == Err::<ParseModel, ParseErrorView>(ParseErrorView::BadId(t)),
{
    assert(evs.take(k + 1) =~= evs.take(k).push(evs[k]));
    lemma_run_push(initial_model(), evs.take(k), evs[k]);
    lemma_error_sticks(initial_model(), evs, k + 1);
}

/// Extracts records from a stream of tag events, one token at a time.
///
/// The identifier and number last seen are kept from row to row: a row that
/// names neither reuses the values of the row before it.
pub struct RecordParser {
    pub id: u32,
    pub number: String,
    pub awaiting: Field,
}

impl RecordParser {
    /// The extraction state this parser stands for, with the rows `rows`.
    pub open spec fn model(&self, rows: Seq<(u32, Seq<char>)>) -> ParseModel {
        ParseModel { id: self.id, number: self.number@, awaiting: self.awaiting, rows }
    }

    pub fn new() -> (p: RecordParser)
        ensures
            p.model(Seq::empty()) == initial_model(),
    {
        RecordParser { id: 0, number: String::new(), awaiting: Field::Nothing }
    }

    /// Whether taking the token `ev` closes a row, and so gives a record.
    pub fn closes_row_on(&self, ev: &TagEvent) -> (r: bool)
        ensures
            r == (self.awaiting == Field::Nothing && closes_row(ev@)),
    {
        match self.awaiting {
            Field::Nothing => match ev {
                TagEvent::End(n) | TagEvent::Empty(n) => is_tag(n, &row_tag_bytes()),
                _ => false,
            },
            _ => false,
        }
    }

    /// Takes one token. A closed row gives a record stamped with `now`.
    pub fn feed(&mut self, ev: &TagEvent, now: i64) -> (r: Result<Option<Record>, ParseError>)
        ensures
            match step(old(self).model(Seq::empty()), ev@) {
                Err(e) => r is Err && r->Err_0@ == e,
                Ok(m) => r is Ok && final(self).model(m.rows) == m && match r->Ok_0 {
                    None => m.rows.len() == 0,
                    Some(rec) => m.rows == seq![(rec.id, rec.number@)] && rec.observed_at == now,
                },
            },
    {
        match self.awaiting {
            Field::Id => {
                self.awaiting = Field::Nothing;
                match ev {
                    TagEvent::Text(raw) => match text_content(raw.as_slice()) {
                        None => Err(ParseError::BadText(raw.clone())),
                        Some(t) => match parse_u32(t.as_str()) {
                            None => Err(ParseError::BadId(t)),
                            Some(v) => {
                                self.id = v;
                                Ok(None)
                            },
                        },
                    },
                    _ => Ok(None),
                }
            },
            Field::Number => {
                self.awaiting = Field::Nothing;
                match ev {
                    TagEvent::Text(raw) => match text_content(raw.as_slice()) {
                        None => Err(ParseError::BadText(raw.clone())),
                        Some(t) => {
                            self.number = t;
                            Ok(None)
                        },
                    },
                    _ => Ok(None),
                }
            },
            Field::Nothing => match ev {
                TagEvent::Start(n) => {
                    if is_tag(n, &id_tag_bytes()) {
                        self.awaiting = Field::Id;
                    } else if is_tag(n, &number_tag_bytes()) {
                        self.awaiting = Field::Number;
                    }
                    Ok(None)
                },
                TagEvent::End(n) | TagEvent::Empty(n) => {
                    if is_tag(n, &row_tag_bytes()) {
                        let rec = Record { id: self.id, number: self.number.clone(), observed_at: now };
                        assert(seq![(rec.id, rec.number@)] =~= Seq::<(u32, Seq<char>)>::empty().push((self.id, self.number@)));
                        Ok(Some(rec))
                    } else {
                        Ok(None)
                    }
                },
                _ => Ok(None),
            },
        }
    }
}

/// Extracts the records of a token sequence. Each record is stamped with
/// `stamp` where one is given, else with the time at which its row closed.
fn extract(events: &Vec<TagEvent>, stamp: Option<i64>) -> (r: Result<Vec<Record>, ParseError>)
    ensures
        match run(tag_views(events@)) {
            Err(e) => r is Err && r->Err_0@ == e,
            Ok(m) => r is Ok && pairs_of(r->Ok_0@) == m.rows
                && (stamp is Some ==> forall|i: int| 0 <= i < r->Ok_0@.len()
                    ==> (#[trigger] r->Ok_0@[i]).observed_at == stamp->0),
        },
{
    let ghost evs = tag_views(events@);
    let mut parser = RecordParser::new();
    let mut out: Vec<Record> = Vec::new();
    let mut i: usize = 0;
    assert(pairs_of(out@) =~= Seq::<(u32, Seq<char>)>::empty());
    assert(evs.take(0) =~= Seq::<TagView>::empty());
    while i < events.len()
        invariant
            0 <= i <= events@.len(),
            evs == tag_views(events@),
            run(evs.take(i as int)) == Ok::<ParseModel, ParseErrorView>(parser.model(pairs_of(out@))),
            stamp is Some ==> forall|k: int| 0 <= k < out@.len() ==> (#[trigger] out@[k]).observed_at == stamp->0,
        decreases events.len() - i,
    {
        proof {
            assert(evs.take(i as int + 1) =~= evs.take(i as int).push(evs[i as int]));
            lemma_run_push(initial_model(), evs.take(i as int), evs[i as int]);
            lemma_step_appends(parser.model(pairs_of(out@)), evs[i as int]);
        }
        let ghost before = out@;
        // The clock is read only for a token that closes a row.
        let now = match stamp {
            Some(t) => t,
            None => if parser.closes_row_on(&events[i]) {
                now_micros()
            } else {
                0
            },
        };
        match parser.feed(&events[i], now) {
            Err(e) => {
                proof {
                    lemma_error_sticks(initial_model(), evs, i as int + 1);
                }
                return Err(e);
            },
            Ok(None) => {},
            Ok(Some(rec)) => {
                out.push(rec);
                assert(pairs_of(out@) =~= pairs_of(before) + seq![(rec.id, rec.number@)]);
            },
        }
        i += 1;
    }
    assert(evs.take(i as int) =~= evs);
    Ok(out)
}

/// Extracts the records of a whole token sequence, stamping each with `now`.
/// It fails exactly where some token fails, with that token's error.
pub fn parse_events(events: &Vec<TagEvent>, now: i64) -> (r: Result<Vec<Record>, ParseError>)
    ensures
        match run(tag_views(events@)) {
            Err(e) => r is Err && r->Err_0@ == e,
            Ok(m) => r is Ok && pairs_of(r->Ok_0@) == m.rows
                && forall|i: int| 0 <= i < r->Ok_0@.len() ==> (#[trigger] r->Ok_0@[i]).observed_at == now,
        },
{
    extract(events, Some(now))
}

/// Reads the records of a tag document, one per "row" element in document
/// order, each stamped with the time at which its row closed. Markup that
/// cannot be tokenized gives `Malformed`; otherwise it fails exactly where
/// extraction from the document's tokens fails. A failed document gives no
/// record at all.
pub fn parse_document(input: &[u8]) -> (r: Result<Vec<Record>, ParseError>)
    ensures
        match document_tokens(input@) {
            None => r is Err && r->Err_0@ == ParseErrorView::Malformed,
            Some(evs) => match run(evs) {
                Err(e) => r is Err && r->Err_0@ == e,
                Ok(m) => r is Ok && pairs_of(r->Ok_0@) == m.rows,
            },
        },
{
    match tokenize(input) {
        None => Err(ParseError::Malformed),
        Some(events) => extract(&events, None),
    }
}

fn id_tag_bytes() -> (r: Vec<u8>)
    ensures
        r@ == id_tag(),
{
    let r = vec![105u8, 100u8];
    assert(r@ =~= id_tag());
    r
}

fn number_tag_bytes() -> (r: Vec<u8>)
    ensures
        r@ == number_tag(),
{
    let r = vec![110u8, 117u8, 109u8, 98u8, 101u8, 114u8];
    assert(r@ =~= number_tag());
    r
}

fn row_tag_bytes() -> (r: Vec<u8>)
    ensures
        r@ == row_tag(),
{
    let r = vec![114u8, 111u8, 119u8];
    assert(r@ =~= row_tag());
    r
}

/// Whether the element name `a` is exactly `b`.
fn is_tag(a: &Vec<u8>, b: &Vec<u8>) -> (r: bool)
    ensures
        r == (a@ == b@),
{
    if a.len() != b.len() {
        return false;
    }
    let mut i: usize = 0;
    while i < a.len()
        invariant
            a@.len() == b@.len(),
            0 <= i <= a@.len(),
            forall|j: int| 0 <= j < i ==> a@[j] == b@[j],
        decreases a.len() - i,
    {
        if a[i] != b[i] {
            return false;
        }
        i += 1;
    }
    assert(a@ =~= b@);
    true
}

} // verus!
