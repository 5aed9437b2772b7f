use rssbot::render::{
    escape, event_messages, feed_messages, fitted_link_markup, header, item_line, title_change_msg, ChangeEvent, Item,
};

#[test]
fn escapes_markup() {
    assert_eq!(escape("a<b>&'\"c"), "a&lt;b&gt;&amp;&#39;&quot;c");
    assert_eq!(escape(""), "");
    assert_eq!(escape("中文"), "中文");
}

#[test]
fn item_falls_back_to_feed() {
    let ft = "Feed & co".to_string();
    let fl = "http://f".to_string();
    let full = Item { title: Some("Post".to_string()), link: Some("http://f/1".to_string()) };
    assert_eq!(item_line(&full, &ft, &fl, 4096), "<a href=\"http://f/1\">Post</a>");
    let bare = Item { title: None, link: None };
    assert_eq!(item_line(&bare, &ft, &fl, 4096), "<a href=\"http://f\">Feed &amp; co</a>");
}

#[test]
fn header_is_bold_title() {
    assert_eq!(header(&"A<B".to_string()), "<b>A&lt;B</b>");
}

#[test]
fn title_change_message() {
    let m = title_change_msg(&"http://f".to_string(), &"Old".to_string(), &"New".to_string());
    assert_eq!(m, "<a href=\"http://f\">Old</a> 已更名为 New");
}

#[test]
fn events_render_in_messages() {
    let ft = "F".to_string();
    let fl = "http://f".to_string();
    let items = vec![
        Item { title: Some("one".to_string()), link: Some("http://f/1".to_string()) },
        Item { title: Some("two".to_string()), link: None },
    ];
    let r = event_messages(&ChangeEvent::NewItems(items), &ft, &fl, 4096);
    assert_eq!(r, vec!["<b>F</b>\n<a href=\"http://f/1\">one</a>\n<a href=\"http://f\">two</a>".to_string()]);

    let items = vec![
        Item { title: Some("one".to_string()), link: Some("http://f/1".to_string()) },
        Item { title: Some("two".to_string()), link: None },
    ];
    let r = event_messages(&ChangeEvent::NewItems(items), &ft, &fl, 40);
    assert_eq!(
        r,
        vec![
            "<b>F</b>\n<a href=\"http://f/1\">one</a>".to_string(),
            "<a href=\"http://f\">two</a>".to_string()
        ]
    );

    let r = event_messages(&ChangeEvent::TitleChanged("G".to_string()), &ft, &fl, 4096);
    assert_eq!(r, vec!["<a href=\"http://f\">F</a> 已更名为 G".to_string()]);
}

#[test]
fn long_title_is_cut_with_ellipsis() {
    let r = fitted_link_markup("http://f", "abcdefghij", 30);
    assert_eq!(r, "<a href=\"http://f\">abcdef\u{2026}</a>");
    assert_eq!(r.chars().count(), 30);
    assert_eq!(fitted_link_markup("http://f", "abcdefghij", 33), "<a href=\"http://f\">abcdefghij</a>");
}

#[test]
fn cut_never_splits_an_entity() {
    let r = fitted_link_markup("http://f", "a&bcdefghi", 30);
    assert_eq!(r, "<a href=\"http://f\">a&amp;\u{2026}</a>");
}

#[test]
fn link_too_long_leaves_the_ellipsis() {
    assert_eq!(fitted_link_markup("http://example.com/x", "t", 30), "\u{2026}");
    assert_eq!(fitted_link_markup("http://f", "t", 0), "");
}

#[test]
fn over_long_item_stays_within_limit() {
    let ft = "F".to_string();
    let fl = "http://f".to_string();
    let items = vec![Item { title: Some("a".repeat(100)), link: None }];
    let r = event_messages(&ChangeEvent::NewItems(items), &ft, &fl, 30);
    assert_eq!(r, vec!["<b>F</b>".to_string(), "<a href=\"http://f\">aaaaaa\u{2026}</a>".to_string()]);
    for m in &r {
        assert!(m.chars().count() <= 30);
    }
    let items = vec![Item { title: Some("b".repeat(5000)), link: None }];
    let r = event_messages(&ChangeEvent::NewItems(items), &ft, &fl, 4096);
    assert_eq!(r.len(), 2);
    assert_eq!(r[1].chars().count(), 4096);
}

#[test]
fn all_events_in_order() {
    let ft = "F".to_string();
    let fl = "http://f".to_string();
    let events = vec![
        ChangeEvent::TitleChanged("G".to_string()),
        ChangeEvent::NewItems(vec![Item { title: Some("one".to_string()), link: Some("http://f/1".to_string()) }]),
    ];
    let r = feed_messages(&events, &ft, &fl, 4096);
    assert_eq!(
        r,
        vec![
            "<a href=\"http://f\">F</a> 已更名为 G".to_string(),
            "<b>F</b>\n<a href=\"http://f/1\">one</a>".to_string()
        ]
    );
    assert!(feed_messages(&Vec::new(), &ft, &fl, 4096).is_empty());
}
