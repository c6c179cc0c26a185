//! The text by which the containers show themselves, built from the text of each item.

use vstd::prelude::*;
use vstd::string::StringExecFns;

verus! {

/// `parts` separated by commas.
pub open spec fn joined(parts: Seq<Seq<char>>) -> Seq<char>
    decreases parts.len(),
{
    if parts.len() == 0 {
        Seq::empty()
    } else if parts.len() == 1 {
        parts[0]
    } else {
        joined(parts.drop_last()) + seq![','] + parts.last()
    }
}

/// The text of a list whose items read `items`: `[a,b,c]`.
pub open spec fn list_text(items: Seq<Seq<char>>) -> Seq<char> {
    seq!['['] + joined(items) + seq![']']
}

/// The text of one entry of a dictionary: `key: value`.
pub open spec fn entry_text(key: Seq<char>, value: Seq<char>) -> Seq<char> {
    key + seq![':', ' '] + value
}

/// The text of a dictionary whose entries read `entries`: `{k: v,k2: v2}`.
pub open spec fn dict_text(entries: Seq<(Seq<char>, Seq<char>)>) -> Seq<char> {
    seq!['{'] + joined(entries.map_values(|e: (Seq<char>, Seq<char>)| entry_text(e.0, e.1))) + seq!['}']
}

/// Appends `parts`, separated by commas, to `out`.
fn append_joined(out: &mut String, parts: &Vec<String>)
    ensures
        final(out)@ == old(out)@ + joined(parts@.map_values(|p: String| p@)),
{
    let ghost views = parts@.map_values(|p: String| p@);
    let ghost start = out@;
    let mut i: usize = 0;
    proof {
        reveal_strlit(",");
        assert(views.take(0) =~= Seq::<Seq<char>>::empty());
        assert(out@ =~= start + joined(views.take(0)));
    }
    while i < parts.len()
        invariant
            0 <= i <= parts@.len(),
            views == parts@.map_values(|p: String| p@),
            out@ == start + joined(views.take(i as int)),
        decreases parts@.len() - i,
    {
        proof {
            reveal_strlit(",");
        }
        if i > 0 {
            out.append(",");
        }
        out.append(parts[i].as_str());
        proof {
            let t = views.take(i + 1);
            assert(t.drop_last() =~= views.take(i as int));
            assert(t.last() == parts@[i as int]@);
            if i == 0 {
                assert(t.len() == 1);
            }
        }
        i = i + 1;
    }
    proof {
        assert(views.take(parts@.len() as int) =~= views);
    }
}

/// Text of a list: the items' text between brackets, separated by commas.
pub fn render_list(items: &Vec<String>) -> (s: String)
    ensures
        s@ == list_text(items@.map_values(|p: String| p@)),
{
    let mut out = String::new();
    proof {
        reveal_strlit("[");
        reveal_strlit("]");
    }
    out.append("[");
    append_joined(&mut out, items);
    out.append("]");
    proof {
        assert(out@ =~= list_text(items@.map_values(|p: String| p@)));
    }
    out
}

/// Text of one entry of a dictionary: key, colon, space, value.
pub fn render_entry(key: &str, value: &str) -> (s: String)
    ensures
        s@ == entry_text(key@, value@),
{
    let mut out = String::new();
    proof {
        reveal_strlit(": ");
    }
    out.append(key);
    out.append(": ");
    out.append(value);
    proof {
        assert(out@ =~= entry_text(key@, value@));
    }
    out
}

/// Text of a dictionary: its entries' text between braces, separated by commas.
pub fn render_dict(entries: &Vec<(String, String)>) -> (s: String)
    ensures
        s@ == dict_text(entries@.map_values(|e: (String, String)| (e.0@, e.1@))),
{
    let ghost ev = entries@.map_values(|e: (String, String)| (e.0@, e.1@));
    let mut parts: Vec<String> = Vec::new();
    let mut i: usize = 0;
    while i < entries.len()
        invariant
            0 <= i <= entries@.len(),
            ev == entries@.map_values(|e: (String, String)| (e.0@, e.1@)),
            parts@.len() == i,
            forall|a: int| 0 <= a < i ==> #[trigger] parts@[a]@ == entry_text(ev[a].0, ev[a].1),
        decreases entries@.len() - i,
    {
        let part = render_entry(entries[i].0.as_str(), entries[i].1.as_str());
        parts.push(part);
        i = i + 1;
    }
    let mut out = String::new();
    proof {
        reveal_strlit("{");
        reveal_strlit("}");
    }
    out.append("{");
    append_joined(&mut out, &parts);
    out.append("}");
    proof {
        assert(parts@.map_values(|p: String| p@) =~= ev.map_values(|e: (Seq<char>, Seq<char>)| entry_text(e.0, e.1)));
        assert(out@ =~= dict_text(ev));
    }
    out
}

/// The total length of `parts`.
pub open spec fn total_len(parts: Seq<Seq<char>>) -> nat
    decreases parts.len(),
{
    if parts.len() == 0 {
        0
    } else {
        total_len(parts.drop_last()) + parts.last().len()
    }
}

/// One more part comes after exactly one more comma, however many parts there are.
pub proof fn lemma_joined_step(parts: Seq<Seq<char>>, x: Seq<char>)
    requires
        parts.len() > 0,
    ensures
        joined(parts.push(x)) == joined(parts) + seq![','] + x,
{
    assert(parts.push(x).drop_last() =~= parts);
}

/// Joining `n` parts adds `n - 1` commas to their text, and the text starts with the first
/// part and ends with the last.
pub proof fn lemma_joined_len(parts: Seq<Seq<char>>)
    requires
        parts.len() > 0,
    ensures
        joined(parts).len() == total_len(parts) + parts.len() - 1,
        parts[0].len() <= joined(parts).len(),
        joined(parts).take(parts[0].len() as int) == parts[0],
        joined(parts).skip(joined(parts).len() - parts.last().len()) == parts.last(),
    decreases parts.len(),
{
    if parts.len() == 1 {
        assert(parts.drop_last().len() == 0);
        assert(total_len(parts.drop_last()) == 0);
        assert(joined(parts).take(parts[0].len() as int) =~= parts[0]);
        assert(joined(parts).skip(0) =~= parts[0]);
    } else {
        let q = parts.drop_last();
        lemma_joined_len(q);
        let j = joined(q) + seq![','] + parts.last();
        assert(q[0] == parts[0]);
        assert(j.take(parts[0].len() as int) =~= joined(q).take(parts[0].len() as int));
        assert(j.skip(j.len() - parts.last().len()) =~= parts.last());
    }
}

} // verus!
