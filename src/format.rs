use vstd::prelude::*;

verus! {

/// The separator put between two lines of one message.
pub open spec fn separator() -> Seq<char> {
    seq!['\n']
}

/// Greedy packing of `lines` after `head`: each line joins the last message
/// unless that would take it over `max` characters, in which case it opens a
/// new message of its own.
pub open spec fn pack(head: Seq<char>, lines: Seq<Seq<char>>, max: nat) -> Seq<Seq<char>>
    decreases lines.len(),
{
    if lines.len() == 0 {
        seq![head]
    } else {
        let prev = pack(head, lines.drop_last(), max);
        let cur = prev.last();
        let line = lines.last();
        if cur.len() + 1 + line.len() > max {
            prev.push(line)
        } else {
            prev.update(prev.len() - 1, cur + separator() + line)
        }
    }
}

proof fn lemma_pack_nonempty(head: Seq<char>, lines: Seq<Seq<char>>, max: nat)
    ensures
        pack(head, lines, max).len() >= 1,
    decreases lines.len(),
{
    if lines.len() > 0 {
        lemma_pack_nonempty(head, lines.drop_last(), max);
    }
}

/// `items` joined by the separator.
pub open spec fn join_lines(items: Seq<Seq<char>>) -> Seq<char>
    decreases items.len(),
{
    if items.len() == 0 {
        Seq::<char>::empty()
    } else if items.len() == 1 {
        items[0]
    } else {
        join_lines(items.drop_last()) + separator() + items.last()
    }
}

/// The groups of `gs` one after the other.
pub open spec fn concat_all(gs: Seq<Seq<Seq<char>>>) -> Seq<Seq<char>>
    decreases gs.len(),
{
    if gs.len() == 0 {
        Seq::<Seq<char>>::empty()
    } else {
        concat_all(gs.drop_last()) + gs.last()
    }
}

/// The lines that each message of `pack(head, lines, max)` is made of.
pub open spec fn groups(head: Seq<char>, lines: Seq<Seq<char>>, max: nat) -> Seq<Seq<Seq<char>>>
    decreases lines.len(),
{
    if lines.len() == 0 {
        seq![seq![head]]
    } else {
        let prev = groups(head, lines.drop_last(), max);
        let cur = pack(head, lines.drop_last(), max).last();
        let line = lines.last();
        if cur.len() + 1 + line.len() > max {
            prev.push(seq![line])
        } else {
            prev.update(prev.len() - 1, prev.last().push(line))
        }
    }
}

/// The messages are the head and the lines, in their order, cut into runs of
/// whole lines, each run joined by the separator; so no line is ever split.
/// When the head and every line fit within `max` characters, so does every
/// message.
pub proof fn lemma_pack_layout(head: Seq<char>, lines: Seq<Seq<char>>, max: nat)
    ensures
        groups(head, lines, max).len() == pack(head, lines, max).len(),
        forall|i: int| 0 <= i < groups(head, lines, max).len() ==>
            (#[trigger] groups(head, lines, max)[i]).len() >= 1
            && pack(head, lines, max)[i] == join_lines(groups(head, lines, max)[i]),
        concat_all(groups(head, lines, max)) == seq![head] + lines,
        head.len() <= max && (forall|j: int| 0 <= j < lines.len() ==> (#[trigger] lines[j]).len() <= max)
            ==> forall|i: int| 0 <= i < pack(head, lines, max).len() ==> (#[trigger] pack(head, lines, max)[i]).len() <= max,
    decreases lines.len(),
{
    let gs = groups(head, lines, max);
    let ms = pack(head, lines, max);
    if lines.len() == 0 {
        let one: Seq<Seq<Seq<char>>> = seq![seq![head]];
        assert(one.drop_last() =~= Seq::<Seq<Seq<char>>>::empty());
        assert(concat_all(one.drop_last()) == Seq::<Seq<char>>::empty());
        assert(concat_all(one) == concat_all(one.drop_last()) + one.last());
        assert(concat_all(one) =~= seq![head] + lines);
    } else {
        let d = lines.drop_last();
        let line = lines.last();
        lemma_pack_layout(head, d, max);
        lemma_pack_nonempty(head, d, max);
        let prev = groups(head, d, max);
        let pm = pack(head, d, max);
        let cur = pm.last();
        assert(prev.last() == prev[prev.len() - 1]);
        if cur.len() + 1 + line.len() > max {
            assert(gs == prev.push(seq![line]));
            assert(gs.drop_last() =~= prev);
            assert(concat_all(gs) == concat_all(prev) + seq![line]);
            assert(concat_all(gs) =~= seq![head] + lines);
            assert forall|i: int| 0 <= i < gs.len() implies
                (#[trigger] gs[i]).len() >= 1 && ms[i] == join_lines(gs[i]) by {
                if i == prev.len() {
                    assert(join_lines(gs[i]) == line);
                }
            }
        } else {
            let g = prev.last();
            let g2 = g.push(line);
            assert(g2.drop_last() =~= g);
            assert(join_lines(g2) == join_lines(g) + separator() + line);
            assert(gs == prev.update(prev.len() - 1, g2));
            assert(gs.drop_last() =~= prev.drop_last());
            assert(concat_all(prev) == concat_all(prev.drop_last()) + g);
            assert(concat_all(gs) == concat_all(prev.drop_last()) + g2);
            assert(concat_all(gs) =~= concat_all(prev) + seq![line]);
            assert(concat_all(gs) =~= seq![head] + lines);
        }
        if head.len() <= max && (forall|j: int| 0 <= j < lines.len() ==> (#[trigger] lines[j]).len() <= max) {
            assert forall|j: int| 0 <= j < d.len() implies (#[trigger] d[j]).len() <= max by {
                assert(d[j] == lines[j]);
            }
            assert(line == lines[lines.len() - 1]);
        }
    }
}

/// Packs `head` and then `lines` into messages of at most `max` characters
/// each, never splitting a line and never reordering lines.
pub fn format_large_msg(head: String, lines: &Vec<String>, max: usize) -> (r: Vec<String>)
    ensures
        r.deep_view() == pack(head@, lines.deep_view(), max as nat),
{
    let ghost all = lines.deep_view();
    let mut done: Vec<String> = Vec::new();
    let mut cur_len: usize = head.as_str().unicode_len();
    let mut current = head;
    let mut i: usize = 0;
    while i < lines.len()
        invariant
            all == lines.deep_view(),
            i <= lines.len(),
            cur_len == current@.len(),
            done.deep_view().push(current@) == pack(head@, all.subrange(0, i as int), max as nat),
        decreases lines.len() - i,
    {
        let line = &lines[i];
        let line_len = line.as_str().unicode_len();
        proof {
            lemma_pack_nonempty(head@, all.subrange(0, i as int), max as nat);
            assert(all.subrange(0, i + 1).drop_last() =~= all.subrange(0, i as int));
            assert(all.subrange(0, i + 1).last() == line@);
        }
        let ghost prev = pack(head@, all.subrange(0, i as int), max as nat);
        if line_len >= max || cur_len > max - 1 - line_len {
            let fresh = line.clone();
            done.push(current);
            current = fresh;
            cur_len = line_len;
            proof {
                assert(done.deep_view().push(current@) =~= prev.push(line@));
            }
        } else {
            let ghost before = current@;
            proof {
                reveal_strlit("\n");
                assert("\n"@ =~= separator());
                assert(done.deep_view().push(before) == prev);
                assert(prev.last() == before);
            }
            current.append("\n");
            current.append(line.as_str());
            cur_len = cur_len + 1 + line_len;
            proof {
                assert(done.deep_view().push(current@) =~= prev.update(prev.len() - 1, prev.last() + separator() + line@));
            }
        }
        i = i + 1;
    }
    done.push(current);
    proof {
        assert(all.subrange(0, lines.len() as int) =~= all);
    }
    done
}

} // verus!
