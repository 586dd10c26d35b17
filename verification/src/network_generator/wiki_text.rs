//! Links and redirects of a page's markup, found by one scan from left to
//! right. Nothing else of the markup is interpreted.

use crate::network_generator::wiki_xml_dump::WikiPage;
use crate::text::{chars_of, stands, string_between, word_at};
use vstd::prelude::*;

verus! {

/// One token of a page's text: the target of a link or of a redirect.
#[derive(PartialEq, Debug)]
pub enum LinkOrRedirect {
    Link(String),
    Redirect(String),
}

/// A token as mathematical data.
pub enum Token {
    Link(Seq<char>),
    Redirect(Seq<char>),
}

impl View for LinkOrRedirect {
    type V = Token;

    open spec fn view(&self) -> Token {
        match *self {
            LinkOrRedirect::Link(target) => Token::Link(target@),
            LinkOrRedirect::Redirect(target) => Token::Redirect(target@),
        }
    }
}

/// The views of a sequence of tokens, element by element.
pub open spec fn token_views(tokens: Seq<LinkOrRedirect>) -> Seq<Token> {
    tokens.map_values(|t: LinkOrRedirect| t@)
}

impl LinkOrRedirect {
    pub fn is_link(&self) -> (b: bool)
        ensures
            b == (self@ is Link),
    {
        match self {
            LinkOrRedirect::Link(_) => true,
            LinkOrRedirect::Redirect(_) => false,
        }
    }

    pub fn is_redirect(&self) -> (b: bool)
        ensures
            b == (self@ is Redirect),
    {
        match self {
            LinkOrRedirect::Link(_) => false,
            LinkOrRedirect::Redirect(_) => true,
        }
    }

    /// The target, where the token is a link.
    pub fn link_text(&self) -> (text: Option<&String>)
        ensures
            match text {
                Some(target) => self@ == Token::Link(target@),
                None => self@ is Redirect,
            },
    {
        match self {
            LinkOrRedirect::Link(link) => Some(link),
            LinkOrRedirect::Redirect(_) => None,
        }
    }

    /// The target, where the token is a redirect.
    pub fn redirect_text(&self) -> (text: Option<&String>)
        ensures
            match text {
                Some(target) => self@ == Token::Redirect(target@),
                None => self@ is Link,
            },
    {
        match self {
            LinkOrRedirect::Link(_) => None,
            LinkOrRedirect::Redirect(link) => Some(link),
        }
    }
}

/// The two characters that open a link.
pub open spec fn link_open() -> Seq<char> {
    seq!['[', '[']
}

/// The redirect keyword in capitals.
pub open spec fn redirect_upper() -> Seq<char> {
    seq!['#', 'R', 'E', 'D', 'I', 'R', 'E', 'C', 'T']
}

/// The redirect keyword in small letters.
pub open spec fn redirect_lower() -> Seq<char> {
    seq!['#', 'r', 'e', 'd', 'i', 'r', 'e', 'c', 't']
}

/// A link starts at `at`: `[[` stands there and at least one character follows it.
pub open spec fn link_starts(text: Seq<char>, at: int) -> bool {
    word_at(text, link_open(), at) && text.len() > at + 2
}

/// The redirect keyword stands at `at`, all in capitals or all in small letters.
pub open spec fn keyword_at(text: Seq<char>, at: int) -> bool {
    word_at(text, redirect_upper(), at) || word_at(text, redirect_lower(), at)
}

/// Where the link of the redirect that starts at `at` starts: right behind
/// the keyword, or behind one character that separates the two. Where the
/// keyword does not stand at `at`, or no link follows it so, there is no
/// redirect at `at`.
pub open spec fn redirect_link(text: Seq<char>, at: int) -> Option<int> {
    if !keyword_at(text, at) {
        None
    } else if link_starts(text, at + 9) {
        Some(at + 9)
    } else if link_starts(text, at + 10) {
        Some(at + 10)
    } else {
        None
    }
}

/// Whether `]]` stands at `at`.
pub open spec fn closes_at(text: Seq<char>, at: int) -> bool {
    0 <= at && at + 2 <= text.len() && text[at] == ']' && text[at + 1] == ']'
}

/// Where the payload that starts at `start` ends: at the first `]]` at or
/// after `start`; where there is none, at the last character of the text,
/// which is then left out; and at `start` itself where fewer than two
/// characters remain.
pub open spec fn payload_end(text: Seq<char>, start: int) -> int
    decreases text.len() - start,
{
    if start < 0 || start + 2 > text.len() || closes_at(text, start) {
        start
    } else {
        payload_end(text, start + 1)
    }
}

/// Index of the first `|` in `text[from..to]`, or `to` where there is none.
pub open spec fn first_bar(text: Seq<char>, from: int, to: int) -> int
    decreases to - from,
{
    if from >= to {
        to
    } else if text[from] == '|' {
        from
    } else {
        first_bar(text, from + 1, to)
    }
}

/// The target of the link whose payload starts at `start`: the payload up to
/// its first `|`. A payload that would start past the end of the text is empty.
pub open spec fn link_target(text: Seq<char>, start: int) -> Seq<char> {
    if 0 <= start < text.len() {
        text.subrange(start, first_bar(text, start, payload_end(text, start)))
    } else {
        Seq::empty()
    }
}

/// `payload_end` never lies before `start`, and within the text it stays
/// short of the end.
pub proof fn lemma_payload_end_bounds(text: Seq<char>, start: int)
    ensures
        start <= payload_end(text, start),
        0 <= start < text.len() ==> payload_end(text, start) < text.len(),
    decreases text.len() - start,
{
    if !(start < 0 || start + 2 > text.len() || closes_at(text, start)) {
        lemma_payload_end_bounds(text, start + 1);
    }
}

/// Where the scan resumes after the payload that starts at `start`: behind
/// its `]]`, and no further than the end of the text.
pub open spec fn resume(text: Seq<char>, start: int) -> int {
    if payload_end(text, start) + 2 <= text.len() {
        payload_end(text, start) + 2
    } else {
        text.len() as int
    }
}

/// The tokens of `text` from position `at` on. A link is `[[`, a payload and
/// `]]`; a redirect is the keyword and a link, with at most one character
/// between them. After a token the scan resumes behind its `]]`; elsewhere
/// it moves on by one character, so that a keyword without a link is passed
/// over.
pub open spec fn tokens_from(text: Seq<char>, at: int) -> Seq<Token>
    decreases text.len() - at,
    via tokens_from_decreases
{
    if at < 0 || at >= text.len() {
        Seq::empty()
    } else if link_starts(text, at) {
        seq![Token::Link(link_target(text, at + 2))] + tokens_from(text, resume(text, at + 2))
    } else {
        match redirect_link(text, at) {
            Some(link) => seq![Token::Redirect(link_target(text, link + 2))] + tokens_from(
                text,
                resume(text, link + 2),
            ),
            None => tokens_from(text, at + 1),
        }
    }
}

#[via_fn]
proof fn tokens_from_decreases(text: Seq<char>, at: int) {
    lemma_payload_end_bounds(text, at + 2);
    lemma_payload_end_bounds(text, at + 11);
    lemma_payload_end_bounds(text, at + 12);
}

/// The tokens of a text, in the order of their appearance.
pub open spec fn tokens(text: Seq<char>) -> Seq<Token> {
    tokens_from(text, 0)
}

/// Tells whether a link starts at `at`.
fn link_at(chars: &Vec<char>, link_token: &Vec<char>, at: usize) -> (found: bool)
    requires
        at <= chars.len(),
        link_token@ == link_open(),
    ensures
        found == link_starts(chars@, at as int),
{
    stands(chars, link_token, at) && chars.len() - at > 2
}

/// Finds the end of the payload that starts at `start`.
fn find_payload_end(chars: &Vec<char>, start: usize) -> (end: usize)
    requires
        start <= chars.len(),
    ensures
        end == payload_end(chars@, start as int),
        start <= end <= chars.len(),
{
    let n = chars.len();
    let mut current: usize = start;
    while n - current >= 2 && !(chars[current] == ']' && chars[current + 1] == ']')
        invariant
            start <= current <= n,
            n == chars.len(),
            payload_end(chars@, start as int) == payload_end(chars@, current as int),
        decreases n - current,
    {
        current += 1;
    }
    current
}

/// Finds the first `|` in `chars[from..to]`.
fn find_first_bar(chars: &Vec<char>, from: usize, to: usize) -> (bar: usize)
    requires
        from <= to <= chars.len(),
    ensures
        bar == first_bar(chars@, from as int, to as int),
        from <= bar <= to,
{
    let mut current: usize = from;
    while current < to && chars[current] != '|'
        invariant
            from <= current <= to <= chars.len(),
            first_bar(chars@, from as int, to as int) == first_bar(chars@, current as int, to as int),
        decreases to - current,
    {
        current += 1;
    }
    current
}

/// Reads the payload that starts at `start`: its target, and the position
/// behind its `]]`, or the length of the text where that lies past the end.
fn read_link(chars: &Vec<char>, start: usize) -> (link: (String, usize))
    requires
        start <= chars.len(),
    ensures
        link.0@ == link_target(chars@, start as int),
        link.1 == resume(chars@, start as int),
        start <= link.1 <= chars.len(),
{
    let n = chars.len();
    let end = find_payload_end(chars, start);
    let bar = find_first_bar(chars, start, end);
    let target = string_between(chars, start, bar);
    let next = if n - end < 2 {
        n
    } else {
        end + 2
    };
    (target, next)
}

/// The links and redirects of a page, in the order of their appearance; no
/// result for a page without text.
pub fn parse_text(page: &WikiPage) -> (result: Option<Vec<LinkOrRedirect>>)
    ensures
        match (page.text, result) {
            (Some(text), Some(found)) => token_views(found@) == tokens(text@),
            (None, None) => true,
            _ => false,
        },
{
    let text = match &page.text {
        Some(text) => text,
        None => { return None; },
    };
    let chars = chars_of(text.as_str());
    let n = chars.len();
    let mut found: Vec<LinkOrRedirect> = Vec::new();
    let link_token: Vec<char> = vec!['[', '['];
    let upper: Vec<char> = vec!['#', 'R', 'E', 'D', 'I', 'R', 'E', 'C', 'T'];
    let lower: Vec<char> = vec!['#', 'r', 'e', 'd', 'i', 'r', 'e', 'c', 't'];
    let mut index: usize = 0;
    assert(token_views(found@) + tokens_from(chars@, 0) == tokens(text@));
    while index < n
        invariant
            index <= n,
            n == chars.len(),
            chars@ == text@,
            link_token@ == link_open(),
            upper@ == redirect_upper(),
            lower@ == redirect_lower(),
            token_views(found@) + tokens_from(chars@, index as int) == tokens(text@),
        decreases n - index,
    {
        let ghost before = found@;
        if link_at(&chars, &link_token, index) {
            let (target, next) = read_link(&chars, index + 2);
            found.push(LinkOrRedirect::Link(target));
            assert(token_views(found@) == token_views(before) + seq![
                Token::Link(link_target(chars@, index + 2)),
            ]);
            index = next;
        } else if stands(&chars, &upper, index) || stands(&chars, &lower, index) {
            let link: Option<usize> = if link_at(&chars, &link_token, index + 9) {
                Some(index + 9)
            } else if n - index > 9 && link_at(&chars, &link_token, index + 10) {
                Some(index + 10)
            } else {
                None
            };
            match link {
                Some(at) => {
                    let (target, next) = read_link(&chars, at + 2);
                    found.push(LinkOrRedirect::Redirect(target));
                    assert(token_views(found@) == token_views(before) + seq![
                        Token::Redirect(link_target(chars@, at + 2)),
                    ]);
                    index = next;
                },
                None => {
                    index += 1;
                },
            }
        } else {
            index += 1;
        }
    }
    Some(found)
}

/// The link targets among `tokens`, in order.
pub open spec fn link_targets(tokens: Seq<Token>) -> Seq<Seq<char>>
    decreases tokens.len(),
{
    if tokens.len() == 0 {
        Seq::empty()
    } else {
        match tokens.last() {
            Token::Link(target) => link_targets(tokens.drop_last()).push(target),
            Token::Redirect(_) => link_targets(tokens.drop_last()),
        }
    }
}

/// Whether at least one of `tokens` is a redirect.
pub open spec fn has_redirect(tokens: Seq<Token>) -> bool {
    exists|i: int| 0 <= i < tokens.len() && tokens[i] is Redirect
}

/// The target of the first redirect among `tokens`.
pub open spec fn first_redirect(tokens: Seq<Token>) -> Option<Seq<char>>
    decreases tokens.len(),
{
    if tokens.len() == 0 {
        None
    } else {
        match tokens.first() {
            Token::Redirect(target) => Some(target),
            Token::Link(_) => first_redirect(tokens.drop_first()),
        }
    }
}

/// The views of a sequence of borrowed strings, element by element.
pub open spec fn borrowed_views(strings: Seq<&String>) -> Seq<Seq<char>> {
    strings.map_values(|s: &String| s@)
}

/// The targets of the links of a token stream, in order.
pub fn linked_articles<'a>(text: &'a Vec<LinkOrRedirect>) -> (links: Vec<&'a String>)
    ensures
        borrowed_views(links@) == link_targets(token_views(text@)),
{
    let mut links: Vec<&'a String> = Vec::new();
    let mut i: usize = 0;
    assert(token_views(text@).take(0) == Seq::<Token>::empty());
    while i < text.len()
        invariant
            i <= text.len(),
            borrowed_views(links@) == link_targets(token_views(text@).take(i as int)),
        decreases text.len() - i,
    {
        let ghost before = links@;
        assert(token_views(text@).take(i + 1).drop_last() == token_views(text@).take(i as int));
        match text[i].link_text() {
            Some(target) => {
                links.push(target);
                assert(borrowed_views(links@) == borrowed_views(before).push(target@));
            },
            None => {},
        }
        i += 1;
    }
    assert(token_views(text@).take(i as int) == token_views(text@));
    links
}

/// Whether a token stream is that of a redirect page: it holds a redirect.
pub fn is_redirect(text: &Vec<LinkOrRedirect>) -> (b: bool)
    ensures
        b == has_redirect(token_views(text@)),
{
    let mut i: usize = 0;
    while i < text.len()
        invariant
            i <= text.len(),
            forall|j: int| 0 <= j < i ==> !(token_views(text@)[j] is Redirect),
        decreases text.len() - i,
    {
        if text[i].is_redirect() {
            assert(token_views(text@)[i as int] is Redirect);
            return true;
        }
        i += 1;
    }
    false
}

/// Where a token stream holds a redirect, the target of the first one.
pub fn redirects_to<'a>(text: &'a Vec<LinkOrRedirect>) -> (target: Option<&'a String>)
    ensures
        match target {
            Some(t) => first_redirect(token_views(text@)) == Some(t@),
            None => first_redirect(token_views(text@)) is None,
        },
{
    let mut i: usize = 0;
    assert(token_views(text@).skip(0) == token_views(text@));
    while i < text.len()
        invariant
            i <= text.len(),
            first_redirect(token_views(text@)) == first_redirect(token_views(text@).skip(i as int)),
        decreases text.len() - i,
    {
        let ghost rest = token_views(text@).skip(i as int);
        assert(rest.first() == text@[i as int]@);
        assert(rest.drop_first() == token_views(text@).skip(i + 1));
        match text[i].redirect_text() {
            Some(t) => {
                return Some(t);
            },
            None => {},
        }
        i += 1;
    }
    None
}

/// A token stream holds a redirect exactly when it has a first one.
pub proof fn lemma_first_redirect_exists(tokens: Seq<Token>)
    ensures
        has_redirect(tokens) <==> first_redirect(tokens) is Some,
    decreases tokens.len(),
{
    if tokens.len() > 0 {
        let rest = tokens.drop_first();
        lemma_first_redirect_exists(rest);
        if tokens.first() is Redirect {
            assert(tokens[0] is Redirect);
        } else {
            if has_redirect(tokens) {
                let i = choose|i: int| 0 <= i < tokens.len() && tokens[i] is Redirect;
                assert(rest[i - 1] is Redirect);
            }
            if has_redirect(rest) {
                let i = choose|i: int| 0 <= i < rest.len() && rest[i] is Redirect;
                assert(tokens[i + 1] is Redirect);
            }
        }
    }
}

} // verus!
