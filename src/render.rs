use vstd::prelude::*;

use crate::format::{format_large_msg, lemma_pack_layout, pack};

verus! {

/// One entry of a feed; a missing title or link is taken from the feed.
#[derive(Debug)]
pub struct Item {
    pub title: Option<String>,
    pub link: Option<String>,
}

/// A change found in a feed since its last successful fetch.
#[derive(Debug)]
pub enum ChangeEvent {
    NewItems(Vec<Item>),
    TitleChanged(String),
}

/// The markup that stands for character `c` in HTML text.
pub open spec fn escape_char(c: char) -> Seq<char> {
    if c == '<' {
        "&lt;"@
    } else if c == '>' {
        "&gt;"@
    } else if c == '&' {
        "&amp;"@
    } else if c == '\'' {
        "&#39;"@
    } else if c == '"' {
        "&quot;"@
    } else {
        seq![c]
    }
}

/// `s` with each character replaced by its markup.
pub open spec fn escaped(s: Seq<char>) -> Seq<char>
    decreases s.len(),
{
    if s.len() == 0 {
        Seq::<char>::empty()
    } else {
        escaped(s.drop_last()) + escape_char(s.last())
    }
}

/// Escapes `s` for HTML text and attribute values.
pub fn escape(s: &str) -> (r: String)
    ensures
        r@ == escaped(s@),
{
    let n = s.unicode_len();
    let mut out = String::new();
    let mut i: usize = 0;
    while i < n
        invariant
            n == s@.len(),
            i <= n,
            out@ == escaped(s@.subrange(0, i as int)),
        decreases n - i,
    {
        let c = s.get_char(i);
        proof {
            assert(s@.subrange(0, i + 1).drop_last() =~= s@.subrange(0, i as int));
            assert(s@.subrange(0, i + 1).last() == c);
        }
        if c == '<' {
            out.append("&lt;");
        } else if c == '>' {
            out.append("&gt;");
        } else if c == '&' {
            out.append("&amp;");
        } else if c == '\'' {
            out.append("&#39;");
        } else if c == '"' {
            out.append("&quot;");
        } else {
            let one = s.substring_char(i, i + 1);
            assert(one@ =~= seq![c]);
            out.append(one);
        }
        i = i + 1;
    }
    proof {
        assert(s@.subrange(0, n as int) =~= s@);
    }
    out
}

/// A link to `link` that reads `title`.
pub open spec fn link_text(link: Seq<char>, title: Seq<char>) -> Seq<char> {
    "<a href=\""@ + escaped(link) + "\">"@ + escaped(title) + "</a>"@
}

fn link_markup(link: &str, title: &str) -> (r: String)
    ensures
        r@ == link_text(link@, title@),
{
    let mut out = String::new();
    out.append("<a href=\"");
    out.append(escape(link).as_str());
    out.append("\">");
    out.append(escape(title).as_str());
    out.append("</a>");
    assert(out@ =~= link_text(link@, title@));
    out
}

/// The ellipsis that ends a cut title.
pub open spec fn ellipsis() -> Seq<char> {
    seq!['\u{2026}']
}

/// A link to `link` that reads the first `k` characters of `title` and an ellipsis.
pub open spec fn cut_text(link: Seq<char>, title: Seq<char>, k: int) -> Seq<char> {
    "<a href=\""@ + escaped(link) + "\">"@ + escaped(title.take(k)) + ellipsis() + "</a>"@
}

/// Whether the link cut after `k` characters of the title fits in `max` characters.
pub open spec fn cut_fits(link: Seq<char>, title: Seq<char>, max: nat, k: int) -> bool {
    cut_text(link, title, k).len() <= max
}

/// Where the title is cut: from `k` on, one character more while the cut link
/// still fits, and never the whole title.
pub open spec fn cut_point(link: Seq<char>, title: Seq<char>, max: nat, k: nat) -> nat
    decreases title.len() - k,
{
    if k + 1 < title.len() && cut_fits(link, title, max, k + 1 as int) {
        cut_point(link, title, max, k + 1)
    } else {
        k
    }
}

/// A link to `link` reading `title` that fits in `max` characters: whole when
/// it fits, else with the title cut and ended by an ellipsis; when not even an
/// empty title fits, the ellipsis alone (or nothing, when `max` is zero).
pub open spec fn fitted_link(link: Seq<char>, title: Seq<char>, max: nat) -> Seq<char> {
    if link_text(link, title).len() <= max {
        link_text(link, title)
    } else if cut_fits(link, title, max, 0) {
        cut_text(link, title, cut_point(link, title, max, 0) as int)
    } else if max >= 1 {
        ellipsis()
    } else {
        Seq::<char>::empty()
    }
}

proof fn lemma_cut_point(link: Seq<char>, title: Seq<char>, max: nat, k: nat)
    requires
        cut_fits(link, title, max, k as int),
    ensures
        cut_fits(link, title, max, cut_point(link, title, max, k) as int),
    decreases title.len() - k,
{
    if k + 1 < title.len() && cut_fits(link, title, max, k + 1 as int) {
        lemma_cut_point(link, title, max, k + 1);
    }
}

/// A fitted link is at most `max` characters long.
pub proof fn lemma_fitted_len(link: Seq<char>, title: Seq<char>, max: nat)
    ensures
        fitted_link(link, title, max).len() <= max,
{
    if link_text(link, title).len() > max && cut_fits(link, title, max, 0) {
        lemma_cut_point(link, title, max, 0);
    }
}

/// The length of the markup for character `c`.
fn escape_len(c: char) -> (r: usize)
    ensures
        r == escape_char(c).len(),
{
    proof {
        reveal_strlit("&lt;");
        reveal_strlit("&gt;");
        reveal_strlit("&amp;");
        reveal_strlit("&#39;");
        reveal_strlit("&quot;");
    }
    if c == '<' || c == '>' {
        4
    } else if c == '&' || c == '\'' {
        5
    } else if c == '"' {
        6
    } else {
        1
    }
}

/// Renders a link to `link` reading `title` in at most `max` characters,
/// cutting the title where the whole does not fit.
pub fn fitted_link_markup(link: &str, title: &str, max: usize) -> (r: String)
    ensures
        r@ == fitted_link(link@, title@, max as nat),
        r@.len() <= max,
{
    proof {
        lemma_fitted_len(link@, title@, max as nat);
        reveal_strlit("<a href=\"");
        reveal_strlit("\">");
        reveal_strlit("</a>");
        reveal_strlit("\u{2026}");
    }
    let full = link_markup(link, title);
    if full.as_str().unicode_len() <= max {
        return full;
    }
    let esc_link = escape(link);
    let link_len = esc_link.as_str().unicode_len();
    assert(cut_text(link@, title@, 0).len() == link_len + escaped(title@.take(0)).len() + 16);
    assert(title@.take(0) =~= Seq::<char>::empty());
    if link_len > max || max - link_len < 16 {
        let mut out = String::new();
        if max >= 1 {
            out.append("\u{2026}");
        }
        assert(out@ =~= fitted_link(link@, title@, max as nat));
        return out;
    }
    let budget: usize = max - link_len - 16;
    let n = title.unicode_len();
    let mut k: usize = 0;
    let mut used: usize = 0;
    let mut open = true;
    while open && k + 1 < n
        invariant
            n == title@.len(),
            link_len == escaped(link@).len(),
            budget == max - link_len - 16,
            used == escaped(title@.take(k as int)).len(),
            used <= budget,
            k == 0 || k < n,
            cut_point(link@, title@, max as nat, k as nat) == cut_point(link@, title@, max as nat, 0),
            !open ==> k + 1 < n && !cut_fits(link@, title@, max as nat, k + 1),
        decreases n - k + (if open { 1int } else { 0int }),
    {
        let c = title.get_char(k);
        let cl = escape_len(c);
        proof {
            reveal_strlit("<a href=\"");
            reveal_strlit("\">");
            reveal_strlit("</a>");
            assert(title@.take(k + 1).drop_last() =~= title@.take(k as int));
            assert(title@.take(k + 1).last() == c);
            assert(cut_text(link@, title@, k + 1).len() == link_len + escaped(title@.take(k + 1)).len() + 16);
        }
        if cl > budget - used {
            open = false;
        } else {
            used = used + cl;
            k = k + 1;
        }
    }
    let prefix = title.substring_char(0, k);
    assert(prefix@ =~= title@.take(k as int));
    let mut out = String::new();
    out.append("<a href=\"");
    out.append(esc_link.as_str());
    out.append("\">");
    out.append(escape(prefix).as_str());
    out.append("\u{2026}");
    out.append("</a>");
    assert(out@ =~= cut_text(link@, title@, k as int));
    out
}

/// The line that announces `item` of a feed titled `feed_title` at
/// `feed_link`, fitted in `max` characters.
pub open spec fn item_text(item: Item, feed_title: Seq<char>, feed_link: Seq<char>, max: nat) -> Seq<char> {
    let title = match item.title {
        Some(t) => t@,
        None => feed_title,
    };
    let link = match item.link {
        Some(l) => l@,
        None => feed_link,
    };
    fitted_link(link, title, max)
}

/// Renders the line that announces `item`, in at most `max` characters.
pub fn item_line(item: &Item, feed_title: &String, feed_link: &String, max: usize) -> (r: String)
    ensures
        r@ == item_text(*item, feed_title@, feed_link@, max as nat),
        r@.len() <= max,
{
    let title: &str = match &item.title {
        Some(t) => t.as_str(),
        None => feed_title.as_str(),
    };
    let link: &str = match &item.link {
        Some(l) => l.as_str(),
        None => feed_link.as_str(),
    };
    fitted_link_markup(link, title, max)
}

/// The first line of a message on new items.
pub open spec fn header_text(feed_title: Seq<char>) -> Seq<char> {
    "<b>"@ + escaped(feed_title) + "</b>"@
}

/// Renders the first line of a message on new items.
pub fn header(feed_title: &String) -> (r: String)
    ensures
        r@ == header_text(feed_title@),
{
    let mut out = String::new();
    out.append("<b>");
    out.append(escape(feed_title.as_str()).as_str());
    out.append("</b>");
    assert(out@ =~= header_text(feed_title@));
    out
}

/// The message on a feed's change of title.
pub open spec fn title_change_text(feed_link: Seq<char>, old_title: Seq<char>, new_title: Seq<char>) -> Seq<char> {
    link_text(feed_link, old_title) + " 已更名为 "@ + escaped(new_title)
}

/// Renders the message on a feed's change of title.
pub fn title_change_msg(feed_link: &String, old_title: &String, new_title: &String) -> (r: String)
    ensures
        r@ == title_change_text(feed_link@, old_title@, new_title@),
{
    let mut out = link_markup(feed_link.as_str(), old_title.as_str());
    out.append(" 已更名为 ");
    out.append(escape(new_title.as_str()).as_str());
    assert(out@ =~= title_change_text(feed_link@, old_title@, new_title@));
    out
}

/// The notice that a feed has failed for days and may be gone.
pub open spec fn dead_feed_text(feed_link: Seq<char>, feed_title: Seq<char>, error: Seq<char>) -> Seq<char> {
    "《"@ + link_text(feed_link, feed_title) + "》已经连续 5 天拉取出错 ("@ + escaped(error)
        + "),可能已经关闭, 请取消订阅"@
}

/// Renders the notice that a feed has failed for days, with the text of its
/// last fetch error.
pub fn dead_feed_msg(feed_link: &String, feed_title: &String, error: &String) -> (r: String)
    ensures
        r@ == dead_feed_text(feed_link@, feed_title@, error@),
{
    let mut out = String::new();
    out.append("《");
    out.append(link_markup(feed_link.as_str(), feed_title.as_str()).as_str());
    out.append("》已经连续 5 天拉取出错 (");
    out.append(escape(error.as_str()).as_str());
    out.append("),可能已经关闭, 请取消订阅");
    assert(out@ =~= dead_feed_text(feed_link@, feed_title@, error@));
    out
}

/// The lines that announce `items`, in their order, each fitted in `max` characters.
pub open spec fn item_texts(items: Seq<Item>, feed_title: Seq<char>, feed_link: Seq<char>, max: nat) -> Seq<Seq<char>> {
    Seq::new(items.len(), |i: int| item_text(items[i], feed_title, feed_link, max))
}

/// The messages that announce `event` of a feed.
pub open spec fn event_texts(event: ChangeEvent, feed_title: Seq<char>, feed_link: Seq<char>, max: nat) -> Seq<Seq<char>> {
    match event {
        ChangeEvent::NewItems(items) => pack(header_text(feed_title), item_texts(items@, feed_title, feed_link, max), max),
        ChangeEvent::TitleChanged(t) => seq![title_change_text(feed_link, feed_title, t@)],
    }
}

/// Renders the messages that announce `event`: new items go as a header and
/// one line each, every line fitted in `max` characters, packed into messages
/// of at most `max` characters as long as the header fits.
pub fn event_messages(event: &ChangeEvent, feed_title: &String, feed_link: &String, max: usize) -> (r: Vec<String>)
    ensures
        r.deep_view() == event_texts(*event, feed_title@, feed_link@, max as nat),
        event is NewItems && header_text(feed_title@).len() <= max ==>
            forall|i: int| 0 <= i < r.deep_view().len() ==> (#[trigger] r.deep_view()[i]).len() <= max,
{
    match event {
        ChangeEvent::NewItems(items) => {
            let mut lines: Vec<String> = Vec::new();
            let mut i: usize = 0;
            while i < items.len()
                invariant
                    i <= items@.len(),
                    lines@.len() == i,
                    forall|j: int| 0 <= j < i ==> (#[trigger] lines@[j])@ == item_text(items@[j], feed_title@, feed_link@, max as nat),
                decreases items@.len() - i,
            {
                lines.push(item_line(&items[i], feed_title, feed_link, max));
                i = i + 1;
            }
            let ghost texts = item_texts(items@, feed_title@, feed_link@, max as nat);
            assert(lines.deep_view() =~= texts);
            proof {
                lemma_pack_layout(header_text(feed_title@), texts, max as nat);
                assert forall|j: int| 0 <= j < texts.len() implies (#[trigger] texts[j]).len() <= max by {
                    let it = items@[j];
                    let title = match it.title { Some(t) => t@, None => feed_title@ };
                    let link = match it.link { Some(l) => l@, None => feed_link@ };
                    lemma_fitted_len(link, title, max as nat);
                }
            }
            format_large_msg(header(feed_title), &lines, max)
        },
        ChangeEvent::TitleChanged(t) => {
            let msg = title_change_msg(feed_link, feed_title, t);
            let mut out: Vec<String> = Vec::new();
            out.push(msg);
            assert(out.deep_view() =~= seq![title_change_text(feed_link@, feed_title@, t@)]);
            out
        },
    }
}

/// The messages that announce each of `events` in turn.
pub open spec fn all_event_texts(events: Seq<ChangeEvent>, feed_title: Seq<char>, feed_link: Seq<char>, max: nat) -> Seq<Seq<char>>
    decreases events.len(),
{
    if events.len() == 0 {
        Seq::<Seq<char>>::empty()
    } else {
        all_event_texts(events.drop_last(), feed_title, feed_link, max)
            + event_texts(events.last(), feed_title, feed_link, max)
    }
}

/// Renders the messages for all of one fetch's `events`, in order: those of
/// the first event, then those of the next, and so on.
pub fn feed_messages(events: &Vec<ChangeEvent>, feed_title: &String, feed_link: &String, max: usize) -> (r: Vec<String>)
    ensures
        r.deep_view() == all_event_texts(events@, feed_title@, feed_link@, max as nat),
{
    let mut out: Vec<String> = Vec::new();
    let mut i: usize = 0;
    while i < events.len()
        invariant
            i <= events@.len(),
            out.deep_view() == all_event_texts(events@.take(i as int), feed_title@, feed_link@, max as nat),
        decreases events@.len() - i,
    {
        let msgs = event_messages(&events[i], feed_title, feed_link, max);
        let ghost before = out.deep_view();
        let mut j: usize = 0;
        while j < msgs.len()
            invariant
                j <= msgs@.len(),
                out.deep_view() == before + msgs.deep_view().take(j as int),
            decreases msgs@.len() - j,
        {
            let ghost prev = out.deep_view();
            let m = msgs[j].clone();
            out.push(m);
            assert(out.deep_view() =~= prev.push(msgs.deep_view()[j as int]));
            assert(msgs.deep_view().take(j + 1) =~= msgs.deep_view().take(j as int).push(msgs[j as int]@));
            assert(out.deep_view() =~= before + msgs.deep_view().take(j + 1));
            j = j + 1;
        }
        proof {
            assert(msgs.deep_view().take(msgs@.len() as int) =~= msgs.deep_view());
            assert(events@.take(i + 1).drop_last() =~= events@.take(i as int));
            assert(events@.take(i + 1).last() == events@[i as int]);
        }
        i = i + 1;
    }
    assert(events@.take(events@.len() as int) =~= events@);
    out
}

} // verus!
