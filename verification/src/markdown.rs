//! Markdown through `pulldown_cmark`: the HTML rendering, and the two
//! readings of the parser's event stream that the PDF and DOCX writers use
//! (the plain text lines of a document and its headings).

use pulldown_cmark::{Event, Options, Parser, Tag, TagEnd};
use vstd::prelude::*;

use crate::text::{has_visible, is_white_space, lemma_first_newline, line_split, split_lines, views, visible};

verus! {

/// Parser options of the HTML rendering: tables, footnotes, strikethrough,
/// task lists, heading attributes and GitHub's extensions.
pub const GFM_OPTIONS: u32 = 2142;

/// Every parser option that `pulldown_cmark` defines (`Options::all()`).
pub const ALL_OPTIONS: u32 = 65534;

/// The events of the parser that the text readings tell apart; every other
/// event is `Other`.
#[derive(Debug)]
pub enum MarkdownEvent {
    /// The start of a heading, with its level (1 to 6).
    HeadingStart(u8),
    /// The start of a list item.
    ItemStart,
    /// Text.
    Text(String),
    /// Inline code.
    Code(String),
    /// A soft line break.
    SoftBreak,
    /// A hard line break.
    HardBreak,
    /// The end of a paragraph.
    ParagraphEnd,
    /// The end of a heading.
    HeadingEnd,
    /// The end of a list item.
    ItemEnd,
    /// The end of a code block.
    CodeBlockEnd,
    /// Any other event.
    Other,
}

/// A `MarkdownEvent` with its texts taken as character sequences.
pub enum EventView {
    HeadingStart(u8),
    ItemStart,
    Text(Seq<char>),
    Code(Seq<char>),
    SoftBreak,
    HardBreak,
    ParagraphEnd,
    HeadingEnd,
    ItemEnd,
    CodeBlockEnd,
    Other,
}

impl View for MarkdownEvent {
    type V = EventView;

    open spec fn view(&self) -> EventView {
        match self {
            MarkdownEvent::HeadingStart(l) => EventView::HeadingStart(*l),
            MarkdownEvent::ItemStart => EventView::ItemStart,
            MarkdownEvent::Text(t) => EventView::Text(t@),
            MarkdownEvent::Code(t) => EventView::Code(t@),
            MarkdownEvent::SoftBreak => EventView::SoftBreak,
            MarkdownEvent::HardBreak => EventView::HardBreak,
            MarkdownEvent::ParagraphEnd => EventView::ParagraphEnd,
            MarkdownEvent::HeadingEnd => EventView::HeadingEnd,
            MarkdownEvent::ItemEnd => EventView::ItemEnd,
            MarkdownEvent::CodeBlockEnd => EventView::CodeBlockEnd,
            MarkdownEvent::Other => EventView::Other,
        }
    }
}

/// The views of a sequence of events.
pub open spec fn event_views(events: Seq<MarkdownEvent>) -> Seq<EventView> {
    events.map_values(|e: MarkdownEvent| e@)
}

/// What `pulldown_cmark::html::push_html` writes for the events that
/// `Parser::new_ext` yields on a text with the given option bits.
pub uninterp spec fn rendered_html(markdown: Seq<char>, options: u32) -> Seq<char>;

/// The events that `Parser::new_ext` yields on a text with the given option
/// bits, each taken as a `MarkdownEvent` and viewed.
pub uninterp spec fn parsed_events(markdown: Seq<char>, options: u32) -> Seq<EventView>;

/// Renders `markdown` to HTML with `pulldown_cmark::html::push_html` over
/// `Parser::new_ext(markdown, Options::from_bits_truncate(options))`.
/// The contract claims only that the result is a function of the text and
/// the options: the HTML itself is the parser's.
#[verifier::external_body]
fn render_html(markdown: &str, options: u32) -> (html: String)
    ensures
        html@ == rendered_html(markdown@, options),
{
    let mut html = String::new();
    pulldown_cmark::html::push_html(&mut html, Parser::new_ext(markdown, Options::from_bits_truncate(options)));
    html
}

/// Collects the events of `Parser::new_ext(markdown, Options::from_bits_truncate(options))`,
/// each converted to a `MarkdownEvent` variant by variant. The contract
/// claims only that the result is a function of the text and the options.
#[verifier::external_body]
fn markdown_events(markdown: &str, options: u32) -> (events: Vec<MarkdownEvent>)
    ensures
        event_views(events@) == parsed_events(markdown@, options),
{
    Parser::new_ext(markdown, Options::from_bits_truncate(options)).map(|event| match event {
        Event::Start(Tag::Heading { level, .. }) => MarkdownEvent::HeadingStart(level as u8),
        Event::Start(Tag::Item) => MarkdownEvent::ItemStart,
        Event::Text(text) => MarkdownEvent::Text(text.into_string()),
        Event::Code(text) => MarkdownEvent::Code(text.into_string()),
        Event::SoftBreak => MarkdownEvent::SoftBreak,
        Event::HardBreak => MarkdownEvent::HardBreak,
        Event::End(TagEnd::Paragraph) => MarkdownEvent::ParagraphEnd,
        Event::End(TagEnd::Heading(_)) => MarkdownEvent::HeadingEnd,
        Event::End(TagEnd::Item) => MarkdownEvent::ItemEnd,
        Event::End(TagEnd::CodeBlock) => MarkdownEvent::CodeBlockEnd,
        _ => MarkdownEvent::Other,
    }).collect()
}

/// The HTML rendering of a Markdown text with the GitHub-flavoured options.
pub fn markdown_html(markdown: &str) -> (html: String)
    ensures
        html@ == rendered_html(markdown@, GFM_OPTIONS),
{
    render_html(markdown, GFM_OPTIONS)
}

/// The state of the plain-text reading: the line being gathered and the
/// lines already closed.
pub struct TextState {
    pub current: Seq<char>,
    pub lines: Seq<Seq<char>>,
}

/// Whether an event closes the block whose text is being gathered.
pub open spec fn closes_block(e: EventView) -> bool {
    match e {
        EventView::ParagraphEnd | EventView::HeadingEnd | EventView::ItemEnd
        | EventView::CodeBlockEnd => true,
        _ => false,
    }
}

/// One step of the plain-text reading.
pub open spec fn text_step(st: TextState, e: EventView) -> TextState {
    match e {
        EventView::HeadingStart(_) => TextState { current: st.current + "# "@, lines: st.lines },
        EventView::ItemStart => TextState { current: st.current + "• "@, lines: st.lines },
        EventView::Text(t) => TextState { current: st.current + t, lines: st.lines },
        EventView::Code(t) => TextState { current: st.current + t, lines: st.lines },
        EventView::SoftBreak => TextState { current: st.current.push(' '), lines: st.lines },
        EventView::HardBreak => TextState { current: st.current.push('\n'), lines: st.lines },
        EventView::Other => st,
        _ => TextState {
            current: Seq::empty(),
            lines: if has_visible(st.current) {
                st.lines + line_split(st.current).push(Seq::empty())
            } else {
                st.lines
            },
        },
    }
}

/// The plain-text reading after the given events.
pub open spec fn text_state(events: Seq<EventView>) -> TextState
    decreases events.len(),
{
    if events.len() == 0 {
        TextState { current: Seq::empty(), lines: Seq::empty() }
    } else {
        text_step(text_state(events.drop_last()), events.last())
    }
}

/// The plain-text lines of an event stream: each block's text split into
/// lines and followed by an empty line, and the unclosed rest as one line.
pub open spec fn text_lines_of(events: Seq<EventView>) -> Seq<Seq<char>> {
    let st = text_state(events);
    if has_visible(st.current) {
        st.lines.push(st.current)
    } else {
        st.lines
    }
}

/// The plain-text lines of a stream of Markdown events: a heading's text
/// starts with `# `, a list item's with `• `, breaks become a space or a
/// newline, and every block that holds more than white space gives its
/// lines and then an empty line.
pub fn text_lines(events: &Vec<MarkdownEvent>) -> (lines: Vec<String>)
    ensures
        views(lines@) == text_lines_of(event_views(events@)),
{
    let mut lines: Vec<String> = Vec::new();
    let mut current = String::new();
    let mut i: usize = 0;
    assert(event_views(events@).take(0) =~= Seq::<EventView>::empty());
    assert(views(lines@) =~= Seq::<Seq<char>>::empty());
    while i < events.len()
        invariant
            i <= events.len(),
            text_state(event_views(events@).take(i as int)) == (TextState { current: current@, lines: views(lines@) }),
        decreases events.len() - i,
    {
        let ghost before = views(lines@);
        assert(event_views(events@).take(i + 1).drop_last() =~= event_views(events@).take(i as int));
        assert(event_views(events@).take(i + 1).last() == events@[i as int]@);
        match &events[i] {
            MarkdownEvent::HeadingStart(_) => {
                current.append("# ");
            },
            MarkdownEvent::ItemStart => {
                current.append("• ");
            },
            MarkdownEvent::Text(t) => {
                current.append(t.as_str());
            },
            MarkdownEvent::Code(t) => {
                current.append(t.as_str());
            },
            MarkdownEvent::SoftBreak => {
                current.push(' ');
            },
            MarkdownEvent::HardBreak => {
                current.push('\n');
            },
            MarkdownEvent::Other => {},
            _ => {
                if visible(current.as_str()) {
                    let split = split_lines(current.as_str());
                    let mut k: usize = 0;
                    while k < split.len()
                        invariant
                            k <= split.len(),
                            views(lines@) == before + views(split@).take(k as int),
                        decreases split.len() - k,
                    {
                        let ghost prev = lines@;
                        lines.push(split[k].clone());
                        assert(views(lines@) =~= views(prev).push(split@[k as int]@));
                        assert(views(split@).take(k + 1) =~= views(split@).take(k as int).push(split@[k as int]@));
                        assert(views(lines@) =~= before + views(split@).take(k + 1));
                        k = k + 1;
                    }
                    let ghost prev = lines@;
                    lines.push(String::new());
                    assert(views(lines@) =~= views(prev).push(Seq::empty()));
                    assert(views(split@).take(split.len() as int) =~= views(split@));
                    assert(views(lines@) =~= before + line_split(current@).push(Seq::empty()));
                }
                current = String::new();
            },
        }
        i = i + 1;
    }
    assert(event_views(events@).take(events.len() as int) =~= event_views(events@));
    if visible(current.as_str()) {
        let ghost before = views(lines@);
        lines.push(current);
        assert(views(lines@) =~= before.push(current@));
    }
    lines
}

/// The plain-text lines of a Markdown text, parsed with every option.
pub fn markdown_text(markdown: &str) -> (lines: Vec<String>)
    ensures
        views(lines@) == text_lines_of(parsed_events(markdown@, ALL_OPTIONS)),
{
    let events = markdown_events(markdown, ALL_OPTIONS);
    text_lines(&events)
}

/// The state of the heading reading: whether a heading of level 1 to 3 is
/// open, its text so far, and the headings gathered.
pub struct HeadingState {
    pub open: bool,
    pub current: Seq<char>,
    pub found: Seq<Seq<char>>,
}

/// One step of the heading reading.
pub open spec fn heading_step(st: HeadingState, e: EventView) -> HeadingState {
    match e {
        EventView::HeadingStart(level) => if level <= 3 {
            HeadingState { open: true, current: Seq::empty(), found: st.found }
        } else {
            st
        },
        EventView::Text(t) => if st.open {
            HeadingState { open: true, current: st.current + t, found: st.found }
        } else {
            st
        },
        EventView::HeadingEnd => if st.open {
            HeadingState {
                open: false,
                current: st.current,
                found: if st.current.len() > 0 { st.found.push(st.current) } else { st.found },
            }
        } else {
            st
        },
        _ => st,
    }
}

/// The heading reading after the given events.
pub open spec fn heading_state(events: Seq<EventView>) -> HeadingState
    decreases events.len(),
{
    if events.len() == 0 {
        HeadingState { open: false, current: Seq::empty(), found: Seq::empty() }
    } else {
        heading_step(heading_state(events.drop_last()), events.last())
    }
}

/// The texts of the headings of level 1 to 3 in a stream of events, in
/// order, leaving out those whose text is empty.
pub fn heading_texts(events: &Vec<MarkdownEvent>) -> (found: Vec<String>)
    ensures
        views(found@) == heading_state(event_views(events@)).found,
{
    let mut found: Vec<String> = Vec::new();
    let mut current = String::new();
    let mut open = false;
    let mut i: usize = 0;
    assert(event_views(events@).take(0) =~= Seq::<EventView>::empty());
    assert(views(found@) =~= Seq::<Seq<char>>::empty());
    while i < events.len()
        invariant
            i <= events.len(),
            heading_state(event_views(events@).take(i as int)) == (HeadingState {
                open: open,
                current: current@,
                found: views(found@),
            }),
        decreases events.len() - i,
    {
        let ghost before = views(found@);
        assert(event_views(events@).take(i + 1).drop_last() =~= event_views(events@).take(i as int));
        assert(event_views(events@).take(i + 1).last() == events@[i as int]@);
        match &events[i] {
            MarkdownEvent::HeadingStart(level) => {
                if *level <= 3 {
                    open = true;
                    current = String::new();
                }
            },
            MarkdownEvent::Text(t) => {
                if open {
                    current.append(t.as_str());
                }
            },
            MarkdownEvent::HeadingEnd => {
                if open {
                    if !current.as_str().is_empty() {
                        found.push(current.clone());
                        assert(views(found@) =~= before.push(current@));
                    }
                    open = false;
                }
            },
            _ => {},
        }
        i = i + 1;
    }
    assert(event_views(events@).take(events.len() as int) =~= event_views(events@));
    found
}

/// No heading that the reading gathers is empty, and it is never left open
/// with text from outside a heading.
pub proof fn law_headings_not_empty(events: Seq<EventView>)
    ensures
        forall|i: int| 0 <= i < heading_state(events).found.len() ==> #[trigger] heading_state(events).found[i].len()
            > 0,
    decreases events.len(),
{
    if events.len() > 0 {
        law_headings_not_empty(events.drop_last());
        let st = heading_state(events.drop_last());
        let st2 = heading_state(events);
        assert forall|i: int| 0 <= i < st2.found.len() implies #[trigger] st2.found[i].len() > 0 by {
            if i < st.found.len() {
                if st2.found != st.found {
                    assert(st2.found == st.found.push(st.current));
                    assert(st2.found[i] == st.found[i]);
                }
            }
        }
    }
}

/// A heading of any level reads as one line marked `# ` followed by an
/// empty line: after a closed block, the events of a heading whose text
/// holds a visible character and no newline add exactly the lines
/// `"# " + text` and `""`.
pub proof fn law_heading_marked_at_every_level(events: Seq<EventView>, level: u8, t: Seq<char>)
    requires
        text_state(events).current.len() == 0,
        has_visible(t),
        forall|j: int| 0 <= j < t.len() ==> #[trigger] t[j] != '\n',
    ensures
        text_lines_of(events + seq![EventView::HeadingStart(level), EventView::Text(t), EventView::HeadingEnd])
            == text_state(events).lines + seq!["# "@ + t, Seq::<char>::empty()],
{
    reveal_strlit("# ");
    let e1 = events + seq![EventView::HeadingStart(level)];
    let e2 = e1 + seq![EventView::Text(t)];
    let e3 = e2 + seq![EventView::HeadingEnd];
    assert(events + seq![EventView::HeadingStart(level), EventView::Text(t), EventView::HeadingEnd] =~= e3);
    assert(e1.drop_last() =~= events);
    assert(e2.drop_last() =~= e1);
    assert(e3.drop_last() =~= e2);
    let st = text_state(events);
    let line = "# "@ + t;
    assert(text_state(e1).current =~= "# "@);
    assert(text_state(e2).current =~= line);
    assert(text_state(e2).lines == st.lines);
    let i = choose|i: int| 0 <= i < t.len() && !is_white_space(#[trigger] t[i]);
    assert(line[i + 2] == t[i]);
    assert(has_visible(line));
    assert forall|j: int| 0 <= j < line.len() implies #[trigger] line[j] != '\n' by {
        if j >= 2 {
            assert(line[j] == t[j - 2]);
        }
    }
    lemma_first_newline(line, line.len() as int);
    assert(line_split(line) == seq![line]);
    assert(text_state(e3).lines =~= st.lines + seq![line, Seq::<char>::empty()]);
    assert(text_state(e3).current.len() == 0);
    assert(!has_visible(text_state(e3).current));
}

/// The headings of level 1 to 3 of a Markdown text, parsed with every option.
pub fn headings(markdown: &str) -> (found: Vec<String>)
    ensures
        views(found@) == heading_state(parsed_events(markdown@, ALL_OPTIONS)).found,
{
    let events = markdown_events(markdown, ALL_OPTIONS);
    heading_texts(&events)
}

} // verus!
