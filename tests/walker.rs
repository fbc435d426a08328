use reflow::document::{classify, new_walker, step, Action, Frame, Tag, XmlEvent, FB_NAMESPACE};

#[test]
fn classify_names() {
    assert_eq!(classify(FB_NAMESPACE, "FictionBook"), Tag::FictionBook);
    assert_eq!(classify(FB_NAMESPACE, "body"), Tag::Body);
    assert_eq!(classify(FB_NAMESPACE, "title"), Tag::Title);
    assert_eq!(classify(FB_NAMESPACE, "section"), Tag::Section);
    assert_eq!(classify(FB_NAMESPACE, "p"), Tag::P);
    assert_eq!(classify(FB_NAMESPACE, "emphasis"), Tag::Other);
    assert_eq!(classify(FB_NAMESPACE, "bodyx"), Tag::Other);
    assert_eq!(classify("", "body"), Tag::Foreign);
    assert_eq!(classify("http://www.w3.org/1999/xlink", "p"), Tag::Foreign);
}

#[test]
fn walk_a_small_book() {
    let mut stack = new_walker();
    assert_eq!(step(&mut stack, XmlEvent::Other), Action::Continue);
    assert_eq!(step(&mut stack, XmlEvent::Start(Tag::FictionBook)), Action::Continue);
    assert_eq!(step(&mut stack, XmlEvent::Start(Tag::Other)), Action::Skip);
    assert_eq!(step(&mut stack, XmlEvent::Start(Tag::Body)), Action::Continue);
    assert_eq!(step(&mut stack, XmlEvent::Start(Tag::Title)), Action::Continue);
    assert_eq!(step(&mut stack, XmlEvent::Start(Tag::P)), Action::CenterText);
    assert_eq!(step(&mut stack, XmlEvent::End(Tag::Title)), Action::Continue);
    assert_eq!(step(&mut stack, XmlEvent::Start(Tag::Section)), Action::Continue);
    assert_eq!(step(&mut stack, XmlEvent::Start(Tag::P)), Action::Continue);
    assert_eq!(stack, vec![Frame::Document, Frame::Root, Frame::Body, Frame::Section, Frame::Para]);
    assert_eq!(step(&mut stack, XmlEvent::Text), Action::AppendText);
    assert_eq!(step(&mut stack, XmlEvent::Start(Tag::Other)), Action::Continue);
    assert_eq!(step(&mut stack, XmlEvent::Text), Action::AppendText);
    assert_eq!(step(&mut stack, XmlEvent::End(Tag::Other)), Action::Continue);
    assert_eq!(step(&mut stack, XmlEvent::Text), Action::AppendText);
    assert_eq!(step(&mut stack, XmlEvent::End(Tag::P)), Action::JustifyText);
    assert_eq!(stack, vec![Frame::Document, Frame::Root, Frame::Body, Frame::Section]);
    assert_eq!(step(&mut stack, XmlEvent::Start(Tag::Foreign)), Action::Continue);
    assert_eq!(step(&mut stack, XmlEvent::Text), Action::Continue);
    assert_eq!(step(&mut stack, XmlEvent::End(Tag::Section)), Action::Continue);
    assert_eq!(step(&mut stack, XmlEvent::End(Tag::Body)), Action::Continue);
    assert_eq!(step(&mut stack, XmlEvent::End(Tag::FictionBook)), Action::Done);
}

#[test]
fn wrong_root_is_refused() {
    let mut stack = new_walker();
    assert_eq!(step(&mut stack, XmlEvent::Start(Tag::Body)), Action::BadRoot);
    let mut stack = new_walker();
    assert_eq!(step(&mut stack, XmlEvent::Start(Tag::Foreign)), Action::BadRoot);
    let mut stack = new_walker();
    assert_eq!(step(&mut stack, XmlEvent::Eof), Action::BadRoot);
}

#[test]
fn end_of_input_inside_root_ends_the_walk() {
    let mut stack = new_walker();
    assert_eq!(step(&mut stack, XmlEvent::Start(Tag::FictionBook)), Action::Continue);
    assert_eq!(step(&mut stack, XmlEvent::Start(Tag::Body)), Action::Continue);
    assert_eq!(step(&mut stack, XmlEvent::Eof), Action::Done);
}

#[test]
fn inline_markup_keeps_one_paragraph() {
    let mut stack = new_walker();
    let events = [
        XmlEvent::Start(Tag::FictionBook),
        XmlEvent::Start(Tag::Body),
        XmlEvent::Start(Tag::Section),
        XmlEvent::Start(Tag::P),
    ];
    for ev in events {
        assert_eq!(step(&mut stack, ev), Action::Continue);
    }
    let runs = [b"one ".to_vec(), b"two".to_vec(), b" three".to_vec()];
    let mut paragraph: Vec<u8> = Vec::new();
    assert_eq!(step(&mut stack, XmlEvent::Text), Action::AppendText);
    paragraph.extend_from_slice(&runs[0]);
    assert_eq!(step(&mut stack, XmlEvent::Start(Tag::Other)), Action::Continue);
    assert_eq!(step(&mut stack, XmlEvent::Text), Action::AppendText);
    paragraph.extend_from_slice(&runs[1]);
    assert_eq!(step(&mut stack, XmlEvent::End(Tag::Other)), Action::Continue);
    assert_eq!(step(&mut stack, XmlEvent::Text), Action::AppendText);
    paragraph.extend_from_slice(&runs[2]);
    assert_eq!(step(&mut stack, XmlEvent::End(Tag::P)), Action::JustifyText);
    let out = reflow::text::format_raw_text(&paragraph, reflow::render::Align::Justify, 72);
    assert_eq!(out, Ok(vec!["one two three".to_string(), String::new()]));
}
