//! The export's two files as data: index entries and their block offsets,
//! and pages assembled from a stream of markup events.

use crate::error::ParseError;
use crate::text::{
    chars_of, decimal_i16, decimal_u64, find_sep, first_sep, parse_i16, parse_u64,
    string_between,
};
use vstd::prelude::*;

verus! {

/// One page of the export.
#[derive(Debug)]
pub struct WikiPage {
    pub title: String,
    pub text: Option<String>,
    pub namespace_id: i16,
}

/// A page as mathematical data.
pub struct PageView {
    pub title: Seq<char>,
    pub text: Option<Seq<char>>,
    pub namespace_id: i16,
}

impl View for WikiPage {
    type V = PageView;

    open spec fn view(&self) -> PageView {
        PageView {
            title: self.title@,
            text: match self.text {
                Some(t) => Some(t@),
                None => None,
            },
            namespace_id: self.namespace_id,
        }
    }
}

pub type WikiIndex = Vec<WikiIndexEntry>;

/// One line of the index: the offset of the compressed block that holds the
/// page, the page's id and its title.
#[derive(Debug)]
pub struct WikiIndexEntry {
    pub start: u64,
    pub id: u64,
    pub title: String,
}

/// An index entry as mathematical data.
pub struct IndexEntryView {
    pub start: u64,
    pub id: u64,
    pub title: Seq<char>,
}

impl View for WikiIndexEntry {
    type V = IndexEntryView;

    open spec fn view(&self) -> IndexEntryView {
        IndexEntryView { start: self.start, id: self.id, title: self.title@ }
    }
}

/// What one index line `offset:id:title` denotes. The offset is what stands
/// before the first colon, the id what stands between the first and the
/// second, and the title all that follows the second, colons included. The
/// line is read left to right and the first fault decides the error: an
/// offset or id that is no `u64` numeral is `InvalidNumber`, a colon that is
/// not there is `MissingField`.
pub open spec fn index_entry(line: Seq<char>) -> Result<IndexEntryView, ParseError> {
    let first = first_sep(line, ':', 0);
    match decimal_u64(line.subrange(0, first)) {
        None => Err(ParseError::InvalidNumber),
        Some(start) => if first >= line.len() {
            Err(ParseError::MissingField)
        } else {
            let second = first_sep(line, ':', first + 1);
            match decimal_u64(line.subrange(first + 1, second)) {
                None => Err(ParseError::InvalidNumber),
                Some(id) => if second >= line.len() {
                    Err(ParseError::MissingField)
                } else {
                    Ok(IndexEntryView { start, id, title: line.skip(second + 1) })
                },
            }
        },
    }
}

/// Reads one index line.
pub fn read_index_line(line: &str) -> (result: Result<WikiIndexEntry, ParseError>)
    ensures
        match result {
            Ok(entry) => index_entry(line@) == Ok::<IndexEntryView, ParseError>(entry@),
            Err(e) => index_entry(line@) == Err::<IndexEntryView, ParseError>(e),
        },
{
    let chars = chars_of(line);
    let n = chars.len();
    let first = find_sep(&chars, ':', 0);
    let start = match parse_u64(string_between(&chars, 0, first).as_str()) {
        Some(v) => v,
        None => { return Err(ParseError::InvalidNumber); },
    };
    if first >= n {
        return Err(ParseError::MissingField);
    }
    let second = find_sep(&chars, ':', first + 1);
    let id = match parse_u64(string_between(&chars, first + 1, second).as_str()) {
        Some(v) => v,
        None => { return Err(ParseError::InvalidNumber); },
    };
    if second >= n {
        return Err(ParseError::MissingField);
    }
    let title = string_between(&chars, second + 1, n);
    Ok(WikiIndexEntry { start, id, title })
}

/// Reads the index, one entry per line. The first malformed line aborts the
/// whole reading with its error.
pub fn read_index(lines: &Vec<String>) -> (result: Result<WikiIndex, ParseError>)
    ensures
        match result {
            Ok(index) => {
                &&& index.len() == lines.len()
                &&& forall|i: int|
                    0 <= i < lines.len() ==> index_entry(#[trigger] lines[i]@) == Ok::<
                        IndexEntryView,
                        ParseError,
                    >(index[i]@)
            },
            Err(e) => exists|k: int|
                {
                    &&& 0 <= k < lines.len()
                    &&& index_entry(#[trigger] lines[k]@) == Err::<IndexEntryView, ParseError>(e)
                    &&& forall|j: int| 0 <= j < k ==> index_entry(#[trigger] lines[j]@) is Ok
                },
        },
{
    let mut index: Vec<WikiIndexEntry> = Vec::new();
    let mut i: usize = 0;
    while i < lines.len()
        invariant
            i <= lines.len(),
            index.len() == i,
            forall|j: int|
                0 <= j < i ==> index_entry(#[trigger] lines[j]@) == Ok::<IndexEntryView, ParseError>(
                    index[j]@,
                ),
        decreases lines.len() - i,
    {
        match read_index_line(lines[i].as_str()) {
            Ok(entry) => {
                index.push(entry);
            },
            Err(e) => {
                return Err(e);
            },
        }
        i += 1;
    }
    Ok(index)
}

/// The block offsets of the entries, in order.
pub open spec fn starts(index: Seq<WikiIndexEntry>) -> Seq<u64> {
    index.map_values(|entry: WikiIndexEntry| entry.start)
}

/// `offsets` with every run of equal neighbours collapsed to one element.
pub open spec fn collapse_runs(offsets: Seq<u64>) -> Seq<u64>
    decreases offsets.len(),
{
    if offsets.len() == 0 {
        Seq::empty()
    } else if offsets.len() >= 2 && offsets[offsets.len() - 2] == offsets.last() {
        collapse_runs(offsets.drop_last())
    } else {
        collapse_runs(offsets.drop_last()).push(offsets.last())
    }
}

/// The distinct block start offsets of the index, in the order in which the
/// index first names them: neighbouring entries of one block count once.
pub fn blocks(index: WikiIndex) -> (offsets: Vec<u64>)
    ensures
        offsets@ == collapse_runs(starts(index@)),
        offsets.len() <= index.len(),
        non_decreasing(starts(index@)) ==> strictly_increasing(as_ints(offsets@)),
{
    proof {
        if non_decreasing(starts(index@)) {
            lemma_collapse_runs(starts(index@));
        }
        lemma_collapse_runs_len(starts(index@));
    }
    let mut offsets: Vec<u64> = Vec::new();
    let mut i: usize = 0;
    while i < index.len()
        invariant
            i <= index.len(),
            offsets@ == collapse_runs(starts(index@).take(i as int)),
        decreases index.len() - i,
    {
        let ghost prefix = starts(index@).take(i + 1);
        assert(prefix.drop_last() == starts(index@).take(i as int));
        if i == 0 || index[i - 1].start != index[i].start {
            offsets.push(index[i].start);
        }
        i += 1;
    }
    assert(starts(index@).take(i as int) == starts(index@));
    offsets
}

/// The element names that the page scanner tells apart.
#[derive(Clone, Copy, Debug, PartialEq, Eq, Structural)]
pub enum Tag {
    Title,
    Text,
    Namespace,
    Page,
    Other,
}

/// The tag that an element name stands for: `title`, `text`, `ns` and `page`,
/// spelled exactly so; every other name is `Other`.
pub open spec fn tag_named(name: Seq<char>) -> Tag {
    if name == seq!['t', 'i', 't', 'l', 'e'] {
        Tag::Title
    } else if name == seq!['t', 'e', 'x', 't'] {
        Tag::Text
    } else if name == seq!['n', 's'] {
        Tag::Namespace
    } else if name == seq!['p', 'a', 'g', 'e'] {
        Tag::Page
    } else {
        Tag::Other
    }
}

/// Classifies an element name.
pub fn tag_of(name: &str) -> (tag: Tag)
    ensures
        tag == tag_named(name@),
{
    let c = chars_of(name);
    let n = c.len();
    if n == 5 && c[0] == 't' && c[1] == 'i' && c[2] == 't' && c[3] == 'l' && c[4] == 'e' {
        assert(c@ == seq!['t', 'i', 't', 'l', 'e']);
        Tag::Title
    } else if n == 4 && c[0] == 't' && c[1] == 'e' && c[2] == 'x' && c[3] == 't' {
        assert(c@ == seq!['t', 'e', 'x', 't']);
        Tag::Text
    } else if n == 2 && c[0] == 'n' && c[1] == 's' {
        assert(c@ == seq!['n', 's']);
        Tag::Namespace
    } else if n == 4 && c[0] == 'p' && c[1] == 'a' && c[2] == 'g' && c[3] == 'e' {
        assert(c@ == seq!['p', 'a', 'g', 'e']);
        Tag::Page
    } else {
        proof {
            let title = seq!['t', 'i', 't', 'l', 'e'];
            let text = seq!['t', 'e', 'x', 't'];
            let ns = seq!['n', 's'];
            let page = seq!['p', 'a', 'g', 'e'];
            assert(c@ == title ==> n == 5 && c@[0] == title[0] && c@[1] == title[1] && c@[2]
                == title[2] && c@[3] == title[3] && c@[4] == title[4]);
            assert(c@ == text ==> n == 4 && c@[0] == text[0] && c@[1] == text[1] && c@[2]
                == text[2] && c@[3] == text[3]);
            assert(c@ == ns ==> n == 2 && c@[0] == ns[0] && c@[1] == ns[1]);
            assert(c@ == page ==> n == 4 && c@[0] == page[0] && c@[1] == page[1] && c@[2]
                == page[2] && c@[3] == page[3]);
        }
        Tag::Other
    }
}

/// One event of a markup pull parser, reduced to what page scanning reads:
/// the name of an opening or closing element, the raw content of a text node
/// with its character references still in place, a text node whose bytes
/// are not UTF-8 and so have no content to hand over, the end of input, and
/// everything else.
#[derive(Debug)]
pub enum XmlEvent {
    Start(String),
    End(String),
    Text(String),
    Undecoded,
    Eof,
    Other,
}

/// An event as mathematical data.
pub enum EventView {
    Start(Seq<char>),
    End(Seq<char>),
    Text(Seq<char>),
    Undecoded,
    Eof,
    Other,
}

impl View for XmlEvent {
    type V = EventView;

    open spec fn view(&self) -> EventView {
        match *self {
            XmlEvent::Start(name) => EventView::Start(name@),
            XmlEvent::End(name) => EventView::End(name@),
            XmlEvent::Text(content) => EventView::Text(content@),
            XmlEvent::Undecoded => EventView::Undecoded,
            XmlEvent::Eof => EventView::Eof,
            XmlEvent::Other => EventView::Other,
        }
    }
}

/// What one event did to the page under construction.
#[derive(Debug)]
pub enum PageStep {
    /// The page is not complete: feed the next event.
    Continue,
    /// The page closed with a title and a namespace.
    Page(WikiPage),
    /// The page closed without a title or without a namespace, and is dropped.
    Skipped,
    /// The input ended; a page that was still open is dropped.
    Finished,
}

/// A step as mathematical data.
pub enum StepView {
    Continue,
    Page(PageView),
    Skipped,
    Finished,
}

impl View for PageStep {
    type V = StepView;

    open spec fn view(&self) -> StepView {
        match *self {
            PageStep::Continue => StepView::Continue,
            PageStep::Page(page) => StepView::Page(page@),
            PageStep::Skipped => StepView::Skipped,
            PageStep::Finished => StepView::Finished,
        }
    }
}

/// The page under construction: which of the three elements of interest are
/// open, and what their text nodes held so far.
#[derive(Debug)]
pub struct PageScanner {
    pub in_title: bool,
    pub in_text: bool,
    pub in_namespace: bool,
    pub title: Option<String>,
    pub text: Option<String>,
    pub namespace_id: Option<i16>,
}

/// A scanner as mathematical data.
pub struct ScannerView {
    pub in_title: bool,
    pub in_text: bool,
    pub in_namespace: bool,
    pub title: Option<Seq<char>>,
    pub text: Option<Seq<char>>,
    pub namespace_id: Option<i16>,
}

impl View for PageScanner {
    type V = ScannerView;

    open spec fn view(&self) -> ScannerView {
        ScannerView {
            in_title: self.in_title,
            in_text: self.in_text,
            in_namespace: self.in_namespace,
            title: match self.title {
                Some(t) => Some(t@),
                None => None,
            },
            text: match self.text {
                Some(t) => Some(t@),
                None => None,
            },
            namespace_id: self.namespace_id,
        }
    }
}

/// The scanner before the first event of a page.
pub open spec fn fresh() -> ScannerView {
    ScannerView {
        in_title: false,
        in_text: false,
        in_namespace: false,
        title: None,
        text: None,
        namespace_id: None,
    }
}

/// Whether a text node is read at all: only inside one of the three elements.
pub open spec fn reads_text(s: ScannerView) -> bool {
    s.in_title || s.in_text || s.in_namespace
}

/// The scanner after an element of the given tag opened.
pub open spec fn opened(s: ScannerView, tag: Tag) -> ScannerView {
    match tag {
        Tag::Title => ScannerView { in_title: true, ..s },
        Tag::Text => ScannerView { in_text: true, ..s },
        Tag::Namespace => ScannerView { in_namespace: true, ..s },
        _ => s,
    }
}

/// The scanner after an element of the given tag, other than the page itself,
/// closed.
pub open spec fn closed(s: ScannerView, tag: Tag) -> ScannerView {
    match tag {
        Tag::Title => ScannerView { in_title: false, ..s },
        Tag::Text => ScannerView { in_text: false, ..s },
        Tag::Namespace => ScannerView { in_namespace: false, ..s },
        _ => s,
    }
}

/// The scanner after a text node with the given content. Every open element
/// takes the content, replacing what it held; the namespace is the content
/// read as an `i16` numeral, and is lost again where the content is none.
pub open spec fn with_text(s: ScannerView, content: Seq<char>) -> ScannerView {
    ScannerView {
        title: if s.in_title {
            Some(content)
        } else {
            s.title
        },
        text: if s.in_text {
            Some(content)
        } else {
            s.text
        },
        namespace_id: if s.in_namespace {
            decimal_i16(content)
        } else {
            s.namespace_id
        },
        ..s
    }
}

/// The page that the scanner holds when the page element closes: one needs a
/// title and a namespace, the text may be missing.
pub open spec fn assembled(s: ScannerView) -> Option<PageView> {
    match (s.title, s.namespace_id) {
        (Some(title), Some(namespace_id)) => Some(PageView { title, text: s.text, namespace_id }),
        _ => None,
    }
}

/// The scanner after an event whose text, if any, is already resolved.
pub open spec fn state_after(s: ScannerView, event: EventView) -> ScannerView {
    match event {
        EventView::Start(name) => opened(s, tag_named(name)),
        EventView::End(name) => if tag_named(name) == Tag::Page {
            fresh()
        } else {
            closed(s, tag_named(name))
        },
        EventView::Text(content) => with_text(s, content),
        EventView::Eof => fresh(),
        EventView::Undecoded => s,
        EventView::Other => s,
    }
}

/// What an event whose text, if any, is already resolved yields.
pub open spec fn outcome_of(s: ScannerView, event: EventView) -> StepView {
    match event {
        EventView::End(name) => if tag_named(name) == Tag::Page {
            match assembled(s) {
                Some(page) => StepView::Page(page),
                None => StepView::Skipped,
            }
        } else {
            StepView::Continue
        },
        EventView::Eof => StepView::Finished,
        _ => StepView::Continue,
    }
}

/// The text that a raw text node stands for once its character and entity
/// references are resolved; `None` where a reference cannot be resolved.
pub uninterp spec fn unescaped(raw: Seq<char>) -> Option<Seq<char>>;

/// Declares `quick_xml::escape::EscapeError`, the fault that resolving
/// references reports, as a value that is carried through unread.
#[verifier::external_type_specification]
#[verifier::external_body]
pub struct ExEscapeError(quick_xml::escape::EscapeError);

/// Resolves the references of a raw text node.
///
/// Trusted: the body is `quick_xml::escape::unescape`, a function of its
/// argument alone that either returns the text with every `&...;` replaced or
/// fails on the first reference it cannot resolve. The contract only names
/// that result; it says nothing of what the result is.
#[verifier::external_body]
fn unescape(raw: &str) -> (result: Result<String, quick_xml::escape::EscapeError>)
    ensures
        match result {
            Ok(content) => unescaped(raw@) == Some(content@),
            Err(_) => unescaped(raw@) is None,
        },
{
    match quick_xml::escape::unescape(raw) {
        Ok(content) => Ok(content.into_owned()),
        Err(e) => Err(e),
    }
}

/// The event as a scanner takes it in. A text node that is read has its
/// references resolved; where that fails it is rejected with `BadEntity`,
/// and where its bytes are not UTF-8 with `BadEncoding`. A text node that is
/// not read, whatever its bytes, counts as any other event.
pub open spec fn resolved_when(reads: bool, event: EventView) -> Result<EventView, ParseError> {
    match event {
        EventView::Text(raw) => if reads {
            match unescaped(raw) {
                Some(content) => Ok(EventView::Text(content)),
                None => Err(ParseError::BadEntity),
            }
        } else {
            Ok(EventView::Other)
        },
        EventView::Undecoded => if reads {
            Err(ParseError::BadEncoding)
        } else {
            Ok(EventView::Other)
        },
        _ => Ok(event),
    }
}

/// The event as the page scanner takes it in.
pub open spec fn resolved(s: ScannerView, event: EventView) -> Result<EventView, ParseError> {
    resolved_when(reads_text(s), event)
}

impl PageScanner {
    /// A scanner at the start of a page.
    pub fn new() -> (scanner: PageScanner)
        ensures
            scanner@ == fresh(),
    {
        PageScanner {
            in_title: false,
            in_text: false,
            in_namespace: false,
            title: None,
            text: None,
            namespace_id: None,
        }
    }

    /// Takes in one event whose text, if it is a text node, holds no
    /// references any more.
    pub fn advance(&mut self, event: XmlEvent) -> (step: PageStep)
        ensures
            final(self)@ == state_after(old(self)@, event@),
            step@ == outcome_of(old(self)@, event@),
    {
        match event {
            XmlEvent::Start(name) => {
                match tag_of(name.as_str()) {
                    Tag::Title => {
                        self.in_title = true;
                    },
                    Tag::Text => {
                        self.in_text = true;
                    },
                    Tag::Namespace => {
                        self.in_namespace = true;
                    },
                    _ => {},
                }
                PageStep::Continue
            },
            XmlEvent::End(name) => {
                match tag_of(name.as_str()) {
                    Tag::Title => {
                        self.in_title = false;
                        PageStep::Continue
                    },
                    Tag::Text => {
                        self.in_text = false;
                        PageStep::Continue
                    },
                    Tag::Namespace => {
                        self.in_namespace = false;
                        PageStep::Continue
                    },
                    Tag::Page => {
                        let title = self.title.take();
                        let text = self.text.take();
                        let namespace_id = self.namespace_id.take();
                        self.in_title = false;
                        self.in_text = false;
                        self.in_namespace = false;
                        match (title, namespace_id) {
                            (Some(title), Some(namespace_id)) => PageStep::Page(
                                WikiPage { title, text, namespace_id },
                            ),
                            _ => PageStep::Skipped,
                        }
                    },
                    Tag::Other => PageStep::Continue,
                }
            },
            XmlEvent::Text(content) => {
                if self.in_namespace {
                    self.namespace_id = parse_i16(content.as_str());
                }
                if self.in_title && self.in_text {
                    self.title = Some(content.clone());
                    self.text = Some(content);
                } else if self.in_title {
                    self.title = Some(content);
                } else if self.in_text {
                    self.text = Some(content);
                }
                PageStep::Continue
            },
            XmlEvent::Eof => {
                self.in_title = false;
                self.in_text = false;
                self.in_namespace = false;
                self.title = None;
                self.text = None;
                self.namespace_id = None;
                PageStep::Finished
            },
            XmlEvent::Undecoded => PageStep::Continue,
            XmlEvent::Other => PageStep::Continue,
        }
    }

    /// Takes in one event as the pull parser delivers it. A text node inside
    /// one of the three elements has its references resolved first; where
    /// that fails, or where the node is not UTF-8, the event is rejected and
    /// the scanner stays as it was.
    pub fn step(&mut self, event: XmlEvent) -> (result: Result<PageStep, ParseError>)
        ensures
            match resolved(old(self)@, event@) {
                Ok(taken) => {
                    &&& result matches Ok(step)
                    &&& step@ == outcome_of(old(self)@, taken)
                    &&& final(self)@ == state_after(old(self)@, taken)
                },
                Err(fault) => {
                    &&& result matches Err(e)
                    &&& e == fault
                    &&& final(self)@ == old(self)@
                },
            },
    {
        let reads = self.in_title || self.in_text || self.in_namespace;
        match event {
            XmlEvent::Text(raw) => {
                if reads {
                    match unescape(raw.as_str()) {
                        Ok(content) => Ok(self.advance(XmlEvent::Text(content))),
                        Err(_) => Err(ParseError::BadEntity),
                    }
                } else {
                    Ok(self.advance(XmlEvent::Other))
                }
            },
            XmlEvent::Undecoded => {
                if reads {
                    Err(ParseError::BadEncoding)
                } else {
                    Ok(self.advance(XmlEvent::Other))
                }
            },
            other => Ok(self.advance(other)),
        }
    }
}

/// Whether an element name is `base`.
pub open spec fn is_base(name: Seq<char>) -> bool {
    name == seq!['b', 'a', 's', 'e']
}

/// Tells whether an element name is `base`.
pub fn names_base(name: &str) -> (b: bool)
    ensures
        b == is_base(name@),
{
    let c = chars_of(name);
    if c.len() == 4 && c[0] == 'b' && c[1] == 'a' && c[2] == 's' && c[3] == 'e' {
        assert(c@ == seq!['b', 'a', 's', 'e']);
        true
    } else {
        proof {
            let base = seq!['b', 'a', 's', 'e'];
            assert(c@ == base ==> c.len() == 4 && c@[0] == base[0] && c@[1] == base[1] && c@[2]
                == base[2] && c@[3] == base[3]);
        }
        false
    }
}

/// What one event did to the search for the base address of the export.
#[derive(Debug, PartialEq, Eq)]
pub enum BaseStep {
    /// Not found yet: feed the next event.
    Continue,
    /// The text that follows the opening of the `base` element.
    Base(String),
    /// The input ended without one.
    Finished,
}

/// A base step as mathematical data.
pub enum BaseStepView {
    Continue,
    Base(Seq<char>),
    Finished,
}

impl View for BaseStep {
    type V = BaseStepView;

    open spec fn view(&self) -> BaseStepView {
        match *self {
            BaseStep::Continue => BaseStepView::Continue,
            BaseStep::Base(base) => BaseStepView::Base(base@),
            BaseStep::Finished => BaseStepView::Finished,
        }
    }
}

/// Whether the search stands behind the opening of a `base` element, after
/// an event: every opening element decides it anew, nothing else changes it.
pub open spec fn base_found_after(found: bool, event: EventView) -> bool {
    match event {
        EventView::Start(name) => is_base(name),
        _ => found,
    }
}

/// What an event whose text, if any, is already resolved yields in the
/// search for the base address.
pub open spec fn base_outcome(found: bool, event: EventView) -> BaseStepView {
    match event {
        EventView::Text(content) => if found {
            BaseStepView::Base(content)
        } else {
            BaseStepView::Continue
        },
        EventView::Eof => BaseStepView::Finished,
        _ => BaseStepView::Continue,
    }
}

/// The search for the base address of the export: the first text node that
/// comes while the last opening element was `base`.
#[derive(Debug)]
pub struct BaseScanner {
    pub found_base: bool,
}

impl BaseScanner {
    /// A search at the start of the input.
    pub fn new() -> (scanner: BaseScanner)
        ensures
            !scanner.found_base,
    {
        BaseScanner { found_base: false }
    }

    /// Takes in one event whose text, if it is a text node, holds no
    /// references any more.
    pub fn advance(&mut self, event: XmlEvent) -> (step: BaseStep)
        ensures
            final(self).found_base == base_found_after(old(self).found_base, event@),
            step@ == base_outcome(old(self).found_base, event@),
    {
        match event {
            XmlEvent::Start(name) => {
                self.found_base = names_base(name.as_str());
                BaseStep::Continue
            },
            XmlEvent::Text(content) => {
                if self.found_base {
                    BaseStep::Base(content)
                } else {
                    BaseStep::Continue
                }
            },
            XmlEvent::Eof => BaseStep::Finished,
            _ => BaseStep::Continue,
        }
    }

    /// Takes in one event as the pull parser delivers it. A text node that
    /// the search reads has its references resolved first; where that
    /// fails, or where the node is not UTF-8, the event is rejected and the
    /// search stays as it was.
    pub fn step(&mut self, event: XmlEvent) -> (result: Result<BaseStep, ParseError>)
        ensures
            match resolved_when(old(self).found_base, event@) {
                Ok(taken) => {
                    &&& result matches Ok(step)
                    &&& step@ == base_outcome(old(self).found_base, taken)
                    &&& final(self).found_base == base_found_after(old(self).found_base, taken)
                },
                Err(fault) => {
                    &&& result matches Err(e)
                    &&& e == fault
                    &&& final(self).found_base == old(self).found_base
                },
            },
    {
        match event {
            XmlEvent::Text(raw) => {
                if self.found_base {
                    match unescape(raw.as_str()) {
                        Ok(content) => Ok(self.advance(XmlEvent::Text(content))),
                        Err(_) => Err(ParseError::BadEntity),
                    }
                } else {
                    Ok(self.advance(XmlEvent::Other))
                }
            },
            XmlEvent::Undecoded => {
                if self.found_base {
                    Err(ParseError::BadEncoding)
                } else {
                    Ok(self.advance(XmlEvent::Other))
                }
            },
            other => Ok(self.advance(other)),
        }
    }
}

/// Collapsing never adds an element.
pub proof fn lemma_collapse_runs_len(offsets: Seq<u64>)
    ensures
        collapse_runs(offsets).len() <= offsets.len(),
    decreases offsets.len(),
{
    if offsets.len() > 0 {
        lemma_collapse_runs_len(offsets.drop_last());
    }
}

/// Every element is at most the elements after it.
pub open spec fn non_decreasing(offsets: Seq<u64>) -> bool {
    forall|i: int, j: int| 0 <= i <= j < offsets.len() ==> offsets[i] <= offsets[j]
}

/// Every element is less than the elements after it.
pub open spec fn strictly_increasing(s: Seq<int>) -> bool {
    forall|i: int, j: int| 0 <= i < j < s.len() ==> s[i] < s[j]
}

/// Offsets as integers.
pub open spec fn as_ints(offsets: Seq<u64>) -> Seq<int> {
    offsets.map_values(|b: u64| b as int)
}

/// The block starts of an index whose offsets never fall are strictly
/// increasing, so that every one of them occurs once; there are no more of
/// them than entries, and the last is the last offset of the index.
pub proof fn lemma_collapse_runs(offsets: Seq<u64>)
    requires
        non_decreasing(offsets),
    ensures
        strictly_increasing(as_ints(collapse_runs(offsets))),
        collapse_runs(offsets).len() <= offsets.len(),
        offsets.len() > 0 ==> collapse_runs(offsets).len() > 0 && collapse_runs(offsets).last()
            == offsets.last(),
    decreases offsets.len(),
{
    if offsets.len() > 0 {
        let front = offsets.drop_last();
        assert forall|i: int, j: int| 0 <= i <= j < front.len() implies front[i] <= front[j] by {
            assert(offsets[i] <= offsets[j]);
        }
        lemma_collapse_runs(front);
        if offsets.len() >= 2 && offsets[offsets.len() - 2] == offsets.last() {
            assert(front.last() == offsets.last());
        } else if offsets.len() >= 2 {
            let c = collapse_runs(front);
            assert(c.last() == front.last());
            assert(offsets[offsets.len() - 2] <= offsets[offsets.len() - 1]);
            let all = c.push(offsets.last());
            assert forall|i: int, j: int| 0 <= i < j < all.len() implies as_ints(all)[i] < as_ints(
                all,
            )[j] by {
                assert(as_ints(c)[c.len() - 1] == c[c.len() - 1]);
                if j == c.len() {
                    if i < c.len() - 1 {
                        assert(as_ints(c)[i] < as_ints(c)[c.len() - 1]);
                    }
                } else {
                    assert(as_ints(c)[i] < as_ints(c)[j]);
                }
            }
        } else {
            assert(front.len() == 0);
        }
    }
}

} // verus!
