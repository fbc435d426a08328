//! Walking a FictionBook document: which elements to enter, skip or print.
//!
//! The reader of the document hands each event over as a plain value; the
//! walker keeps the stack of open elements it cares about and answers with
//! what to do next.
use vstd::prelude::*;
use vstd::string::StrSliceExecFns;

verus! {

/// The namespace of FictionBook 2.0 elements.
pub const FB_NAMESPACE: &'static str = "http://www.gribuser.ru/xml/fictionbook/2.0";

/// An element, as the walker tells elements apart.
#[derive(Clone, Copy, Debug, PartialEq, Eq, Structural)]
pub enum Tag {
    FictionBook,
    Body,
    Title,
    Section,
    P,
    /// Any other element of the FictionBook namespace.
    Other,
    /// An element of another namespace, or of none.
    Foreign,
}

/// One event of the document, as the reader reports it.
#[derive(Clone, Copy, Debug, PartialEq, Eq, Structural)]
pub enum XmlEvent {
    Start(Tag),
    End(Tag),
    Text,
    Eof,
    /// Comments, declarations and the like.
    Other,
}

/// An open element that the walker tracks.
#[derive(Clone, Copy, Debug, PartialEq, Eq, Structural)]
pub enum Frame {
    /// Outside the root element.
    Document,
    Root,
    Body,
    Section,
    Title,
    /// A paragraph of a section, whose text runs are gathered and printed
    /// as one when it closes; inline elements inside it are read through.
    Para,
}

/// What the reader does with the event it just reported.
#[derive(Clone, Copy, Debug, PartialEq, Eq, Structural)]
pub enum Action {
    /// Read the next event.
    Continue,
    /// Read past the end of the element just started.
    Skip,
    /// Read the text of the element just started and print it centered.
    CenterText,
    /// Add the text run just read to the paragraph's text.
    AppendText,
    /// The paragraph just closed: print its gathered text, justified, and
    /// start the next one empty.
    JustifyText,
    /// The document is done.
    Done,
    /// The first element is not a FictionBook root, or there is none.
    BadRoot,
}

/// How an element with namespace `ns` and local name `local` is classified.
pub open spec fn tag_of(ns: Seq<char>, local: Seq<char>) -> Tag {
    if ns != FB_NAMESPACE@ {
        Tag::Foreign
    } else if local == "FictionBook"@ {
        Tag::FictionBook
    } else if local == "body"@ {
        Tag::Body
    } else if local == "title"@ {
        Tag::Title
    } else if local == "section"@ {
        Tag::Section
    } else if local == "p"@ {
        Tag::P
    } else {
        Tag::Other
    }
}

/// A walker stack: the document at the bottom.
pub open spec fn well_formed(stack: Seq<Frame>) -> bool {
    stack.len() >= 1 && stack[0] == Frame::Document
}

/// The answer to a start tag inside a frame that skips what it does not know.
pub open spec fn skip_unknown(t: Tag) -> Action {
    if t == Tag::Foreign {
        Action::Continue
    } else {
        Action::Skip
    }
}

/// The stack after leaving the innermost frame, and the answer: the document
/// is done once its root closes.
pub open spec fn leave(stack: Seq<Frame>) -> (Seq<Frame>, Action) {
    let rest = stack.drop_last();
    if rest.len() <= 1 {
        (rest, Action::Done)
    } else {
        (rest, Action::Continue)
    }
}

/// The walker's transition: the new stack and the action for event `ev`.
pub open spec fn next(stack: Seq<Frame>, ev: XmlEvent) -> (Seq<Frame>, Action) {
    let top = stack.last();
    match ev {
        XmlEvent::Eof => if top == Frame::Document {
            (stack, Action::BadRoot)
        } else {
            (stack, Action::Done)
        },
        XmlEvent::Start(t) => match top {
            Frame::Document => if t == Tag::FictionBook {
                (stack.push(Frame::Root), Action::Continue)
            } else {
                (stack, Action::BadRoot)
            },
            Frame::Root => if t == Tag::Body {
                (stack.push(Frame::Body), Action::Continue)
            } else {
                (stack, skip_unknown(t))
            },
            Frame::Body => if t == Tag::Title {
                (stack.push(Frame::Title), Action::Continue)
            } else if t == Tag::Section {
                (stack.push(Frame::Section), Action::Continue)
            } else {
                (stack, skip_unknown(t))
            },
            Frame::Section => if t == Tag::Title {
                (stack.push(Frame::Title), Action::Continue)
            } else if t == Tag::P {
                (stack.push(Frame::Para), Action::Continue)
            } else {
                (stack, skip_unknown(t))
            },
            Frame::Title => if t == Tag::P {
                (stack, Action::CenterText)
            } else {
                (stack, skip_unknown(t))
            },
            Frame::Para => (stack, Action::Continue),
        },
        XmlEvent::End(t) => match top {
            Frame::Document => (stack, Action::Continue),
            Frame::Para => if t == Tag::P {
                (stack.drop_last(), Action::JustifyText)
            } else {
                (stack, Action::Continue)
            },
            _ => leave(stack),
        },
        XmlEvent::Text => if top == Frame::Para {
            (stack, Action::AppendText)
        } else {
            (stack, Action::Continue)
        },
        XmlEvent::Other => (stack, Action::Continue),
    }
}

/// Whether two strings hold the same characters.
fn same_text(a: &str, b: &str) -> (r: bool)
    ensures
        r == (a@ == b@),
{
    let n = a.unicode_len();
    if n != b.unicode_len() {
        return false;
    }
    let mut k: usize = 0;
    while k < n
        invariant
            n == a@.len(),
            n == b@.len(),
            k <= n,
            forall|m: int| 0 <= m < k ==> a@[m] == b@[m],
        decreases n - k,
    {
        if a.get_char(k) != b.get_char(k) {
            return false;
        }
        k += 1;
    }
    proof {
        assert(a@ =~= b@);
    }
    true
}

/// Classifies an element by its namespace (empty for none) and local name.
pub fn classify(ns: &str, local: &str) -> (t: Tag)
    ensures
        t == tag_of(ns@, local@),
{
    if !same_text(ns, FB_NAMESPACE) {
        Tag::Foreign
    } else if same_text(local, "FictionBook") {
        Tag::FictionBook
    } else if same_text(local, "body") {
        Tag::Body
    } else if same_text(local, "title") {
        Tag::Title
    } else if same_text(local, "section") {
        Tag::Section
    } else if same_text(local, "p") {
        Tag::P
    } else {
        Tag::Other
    }
}

/// A walker before the first event.
pub fn new_walker() -> (stack: Vec<Frame>)
    ensures
        stack@ == seq![Frame::Document],
        well_formed(stack@),
{
    let mut stack: Vec<Frame> = Vec::new();
    stack.push(Frame::Document);
    stack
}

/// Takes one event: updates the stack and says what the reader does next.
pub fn step(stack: &mut Vec<Frame>, ev: XmlEvent) -> (act: Action)
    requires
        well_formed(old(stack)@),
    ensures
        (final(stack)@, act) == next(old(stack)@, ev),
        act != Action::Done && act != Action::BadRoot ==> well_formed(final(stack)@),
{
    let top = stack[stack.len() - 1];
    match ev {
        XmlEvent::Eof => if top == Frame::Document {
            Action::BadRoot
        } else {
            Action::Done
        },
        XmlEvent::Start(t) => match top {
            Frame::Document => if t == Tag::FictionBook {
                stack.push(Frame::Root);
                Action::Continue
            } else {
                Action::BadRoot
            },
            Frame::Root => if t == Tag::Body {
                stack.push(Frame::Body);
                Action::Continue
            } else {
                skip_or_continue(t)
            },
            Frame::Body => if t == Tag::Title {
                stack.push(Frame::Title);
                Action::Continue
            } else if t == Tag::Section {
                stack.push(Frame::Section);
                Action::Continue
            } else {
                skip_or_continue(t)
            },
            Frame::Section => if t == Tag::Title {
                stack.push(Frame::Title);
                Action::Continue
            } else if t == Tag::P {
                stack.push(Frame::Para);
                Action::Continue
            } else {
                skip_or_continue(t)
            },
            Frame::Title => if t == Tag::P {
                Action::CenterText
            } else {
                skip_or_continue(t)
            },
            Frame::Para => Action::Continue,
        },
        XmlEvent::End(t) => match top {
            Frame::Document => Action::Continue,
            Frame::Para => if t == Tag::P {
                let _ = stack.pop();
                proof {
                    assert(stack@ =~= old(stack)@.drop_last());
                }
                Action::JustifyText
            } else {
                Action::Continue
            },
            _ => leave_frame(stack),
        },
        XmlEvent::Text => if top == Frame::Para {
            Action::AppendText
        } else {
            Action::Continue
        },
        XmlEvent::Other => Action::Continue,
    }
}

fn skip_or_continue(t: Tag) -> (act: Action)
    ensures
        act == skip_unknown(t),
{
    if t == Tag::Foreign {
        Action::Continue
    } else {
        Action::Skip
    }
}

fn leave_frame(stack: &mut Vec<Frame>) -> (act: Action)
    requires
        old(stack)@.len() >= 1,
    ensures
        (final(stack)@, act) == leave(old(stack)@),
{
    let _ = stack.pop();
    proof {
        assert(stack@ =~= old(stack)@.drop_last());
    }
    if stack.len() <= 1 {
        Action::Done
    } else {
        Action::Continue
    }
}

} // verus!
