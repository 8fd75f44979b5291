//! The placeholder resolver: a pure mapping from label text and a server's
//! status snapshot to rendered text. `{status}` becomes a colored Online or
//! Offline token, `{online}` and `{max}` the player counts, or zeros when
//! the server is offline. Text without a brace is returned unchanged.

use vstd::prelude::*;

use crate::digits::{dec_str, render_u32, pow10, lemma_dec_str_len_le};
use crate::text::{replace_spec, replace_all, contains_sub, contains_at, contains_char, contains,
    str_has_char, lemma_replace_absent, lemma_replace_len};
use crate::status::{ServerStatus, StatusBoard};
use crate::model::{Npc, HologramLine};

verus! {

pub open spec fn pat_status() -> Seq<char> {
    seq!['{', 's', 't', 'a', 't', 'u', 's', '}']
}

pub open spec fn pat_online() -> Seq<char> {
    seq!['{', 'o', 'n', 'l', 'i', 'n', 'e', '}']
}

pub open spec fn pat_max() -> Seq<char> {
    seq!['{', 'm', 'a', 'x', '}']
}

/// The colored status token: a section-sign color code and Online or
/// Offline.
pub open spec fn status_token(st: ServerStatus) -> Seq<char> {
    if st.online {
        seq!['\u{a7}', 'a', 'O', 'n', 'l', 'i', 'n', 'e']
    } else {
        seq!['\u{a7}', 'c', 'O', 'f', 'f', 'l', 'i', 'n', 'e']
    }
}

/// The current player count, or zero when offline.
pub open spec fn online_token(st: ServerStatus) -> Seq<char> {
    if st.online {
        dec_str(st.players_online as int)
    } else {
        dec_str(0)
    }
}

/// The capacity, or zero when offline.
pub open spec fn max_token(st: ServerStatus) -> Seq<char> {
    if st.online {
        dec_str(st.players_max as int)
    } else {
        dec_str(0)
    }
}

/// The rendered text: the three placeholders substituted in turn.
pub open spec fn resolved_spec(text: Seq<char>, st: ServerStatus) -> Seq<char> {
    replace_spec(
        replace_spec(
            replace_spec(text, pat_status(), status_token(st)),
            pat_online(),
            online_token(st),
        ),
        pat_max(),
        max_token(st),
    )
}

/// Text without a brace holds no placeholder.
proof fn lemma_no_brace(s: Seq<char>, pat: Seq<char>)
    requires
        pat.len() >= 1,
        pat[0] == '{',
        !contains_char(s, '{'),
    ensures
        !contains_sub(s, pat),
{
    if contains_sub(s, pat) {
        let i = choose|i: int| contains_at(s, pat, i);
        assert(s.subrange(i, i + pat.len())[0] == s[i]);
        assert(s[i] == '{');
    }
}

/// The text mentions a recognized placeholder token.
pub open spec fn has_placeholder_spec(t: Seq<char>) -> bool {
    contains_sub(t, pat_status()) || contains_sub(t, pat_online()) || contains_sub(t, pat_max())
}

/// True when the text mentions any recognized placeholder.
pub fn has_placeholders(text: &str) -> (r: bool)
    ensures
        r == has_placeholder_spec(text@),
{
    proof {
        reveal_strlit("{status}");
        reveal_strlit("{online}");
        reveal_strlit("{max}");
        assert(("{status}")@ =~= pat_status());
        assert(("{online}")@ =~= pat_online());
        assert(("{max}")@ =~= pat_max());
    }
    contains(text, "{status}") || contains(text, "{online}") || contains(text, "{max}")
}

/// Substitutes the placeholders in a label text against one server's
/// snapshot. Text containing no brace is returned unchanged, without
/// consulting the snapshot.
pub fn resolve_placeholders(text: &str, status: &ServerStatus) -> (r: String)
    ensures
        r@ == resolved_spec(text@, *status),
        !contains_char(text@, '{') ==> r@ == text@,
{
    proof {
        reveal_strlit("{status}");
        reveal_strlit("{online}");
        reveal_strlit("{max}");
        assert(("{status}")@ =~= pat_status());
        assert(("{online}")@ =~= pat_online());
        assert(("{max}")@ =~= pat_max());
    }
    if !str_has_char(text, '{') {
        proof {
            lemma_no_brace(text@, pat_status());
            lemma_no_brace(text@, pat_online());
            lemma_no_brace(text@, pat_max());
            lemma_replace_absent(text@, pat_status(), status_token(*status));
            lemma_replace_absent(text@, pat_online(), online_token(*status));
            lemma_replace_absent(text@, pat_max(), max_token(*status));
        }
        return text.to_owned();
    }
    let st_str: &str = if status.online {
        "\u{a7}aOnline"
    } else {
        "\u{a7}cOffline"
    };
    proof {
        reveal_strlit("\u{a7}aOnline");
        reveal_strlit("\u{a7}cOffline");
        assert(st_str@ =~= status_token(*status));
    }
    let on_val: u32 = if status.online {
        status.players_online
    } else {
        0
    };
    let mx_val: u32 = if status.online {
        status.players_max
    } else {
        0
    };
    let on_str = render_u32(on_val);
    let mx_str = render_u32(mx_val);
    let s1 = replace_all(text, "{status}", st_str);
    let s2 = replace_all(s1.as_str(), "{online}", on_str.as_str());
    let s3 = replace_all(s2.as_str(), "{max}", mx_str.as_str());
    s3
}


/// Resolution grows the text by at most a factor of eight: each of the
/// three substitutions at most doubles it, since every replacement is at
/// most twice its pattern.
pub proof fn lemma_resolved_len(t: Seq<char>, st: ServerStatus)
    ensures
        resolved_spec(t, st).len() <= 8 * t.len(),
{
    assert(pow10(10nat) == 10000000000) by {
        reveal_with_fuel(pow10, 11);
    }
    lemma_dec_str_len_le(st.players_online as int, 10nat);
    lemma_dec_str_len_le(st.players_max as int, 10nat);
    lemma_dec_str_len_le(0, 10nat);
    assert(status_token(st).len() <= 9);
    assert(online_token(st).len() <= 10);
    assert(max_token(st).len() <= 10);
    let r1 = replace_spec(t, pat_status(), status_token(st));
    lemma_replace_len(t, pat_status(), status_token(st));
    let r2 = replace_spec(r1, pat_online(), online_token(st));
    lemma_replace_len(r1, pat_online(), online_token(st));
    lemma_replace_len(r2, pat_max(), max_token(st));
}

/// The rendered text of label line `k` of a record: resolved against the
/// linked server's current reading when the record links one, else the
/// stored text as it is.
pub open spec fn rendered_label_spec(n: Npc, k: int, board: StatusBoard) -> Seq<char> {
    match n.server {
        Some(s) => resolved_spec(n.holograms@[k].text@, board.status_of(s@)),
        None => n.holograms@[k].text@,
    }
}

/// The rendered texts of a record's label lines, in line order: what each
/// label entity displays.
pub fn rendered_label_texts(npc: &Npc, board: &StatusBoard) -> (r: Vec<String>)
    ensures
        r@.len() == npc.holograms@.len(),
        forall|k: int|
            0 <= k < r@.len() ==> (#[trigger] r@[k])@ == rendered_label_spec(*npc, k, *board),
{
    let status: Option<ServerStatus> = match &npc.server {
        Some(name) => Some(board.get(name.as_str())),
        None => None,
    };
    let mut out: Vec<String> = Vec::new();
    let mut i: usize = 0;
    while i < npc.holograms.len()
        invariant
            i <= npc.holograms@.len(),
            out@.len() == i,
            match npc.server {
                Some(name) => status matches Some(st) && st == board.status_of(name@),
                None => status is None,
            },
            forall|k: int|
                0 <= k < i ==> (#[trigger] out@[k])@ == rendered_label_spec(*npc, k, *board),
        decreases npc.holograms@.len() - i,
    {
        match &status {
            Some(st) => {
                out.push(resolve_placeholders(npc.holograms[i].text.as_str(), st));
            },
            None => {
                out.push(npc.holograms[i].text.clone());
            },
        }
        i = i + 1;
    }
    out
}

/// The label refreshes of one record: for a record with a linked server,
/// each label line whose text holds a recognized placeholder, as its
/// entity handle and re-rendered text, in line order; nothing otherwise.
pub open spec fn line_refreshes(
    lines: Seq<HologramLine>,
    st: ServerStatus,
) -> Seq<(i32, Seq<char>)>
    decreases lines.len(),
{
    if lines.len() == 0 {
        Seq::empty()
    } else {
        let head: Seq<(i32, Seq<char>)> = if has_placeholder_spec(lines[0].text@) {
            seq![(lines[0].entity_id, resolved_spec(lines[0].text@, st))]
        } else {
            Seq::empty()
        };
        head + line_refreshes(lines.skip(1), st)
    }
}

pub open spec fn rec_refreshes(n: Npc, board: StatusBoard) -> Seq<(i32, Seq<char>)> {
    match n.server {
        Some(s) => line_refreshes(n.holograms@, board.status_of(s@)),
        None => Seq::empty(),
    }
}

/// The label refreshes one publish step pushes, over all records in
/// order.
pub open spec fn refresh_pairs(npcs: Seq<Npc>, board: StatusBoard) -> Seq<(i32, Seq<char>)>
    decreases npcs.len(),
{
    if npcs.len() == 0 {
        Seq::empty()
    } else {
        rec_refreshes(npcs[0], board) + refresh_pairs(npcs.skip(1), board)
    }
}

proof fn lemma_refresh_pairs_snoc(npcs: Seq<Npc>, n: Npc, board: StatusBoard)
    ensures
        refresh_pairs(npcs.push(n), board) == refresh_pairs(npcs, board) + rec_refreshes(
            n,
            board,
        ),
    decreases npcs.len(),
{
    if npcs.len() == 0 {
        assert(npcs.push(n) =~= seq![n]);
        assert(seq![n].skip(1) =~= Seq::<Npc>::empty());
        assert(refresh_pairs(seq![n], board) == rec_refreshes(n, board) + refresh_pairs(
            Seq::<Npc>::empty(),
            board,
        ));
        assert(rec_refreshes(n, board) + Seq::<(i32, Seq<char>)>::empty() =~= rec_refreshes(
            n,
            board,
        ));
        assert(refresh_pairs(npcs, board) + rec_refreshes(n, board) =~= rec_refreshes(n, board));
    } else {
        lemma_refresh_pairs_snoc(npcs.skip(1), n, board);
        assert(npcs.push(n).skip(1) =~= npcs.skip(1).push(n));
        assert(npcs.push(n)[0] == npcs[0]);
        assert(rec_refreshes(npcs[0], board) + (refresh_pairs(npcs.skip(1), board)
            + rec_refreshes(n, board)) =~= (rec_refreshes(npcs[0], board) + refresh_pairs(
            npcs.skip(1),
            board,
        )) + rec_refreshes(n, board));
    }
}

/// The publish decision of one polling cycle: for every record with a
/// linked server, the entity handle and re-rendered text of each label
/// line that mentions a placeholder, in record order then line order. The
/// rim pushes each pair to every connected session as a metadata-only
/// update.
#[verifier::loop_isolation(false)]
pub fn hologram_refreshes(npcs: &Vec<Npc>, board: &StatusBoard) -> (r: Vec<(i32, String)>)
    ensures
        r@.len() == refresh_pairs(npcs@, *board).len(),
        forall|k: int|
            0 <= k < r@.len() ==> {
                &&& (#[trigger] r@[k]).0 == refresh_pairs(npcs@, *board)[k].0
                &&& r@[k].1@ == refresh_pairs(npcs@, *board)[k].1
            },
{
    let mut out: Vec<(i32, String)> = Vec::new();
    let mut i: usize = 0;
    proof {
        assert(npcs@.take(0) =~= Seq::<Npc>::empty());
    }
    while i < npcs.len()
        invariant
            i <= npcs@.len(),
            out@.len() == refresh_pairs(npcs@.take(i as int), *board).len(),
            forall|k: int|
                0 <= k < out@.len() ==> {
                    &&& (#[trigger] out@[k]).0 == refresh_pairs(npcs@.take(i as int), *board)[k].0
                    &&& out@[k].1@ == refresh_pairs(npcs@.take(i as int), *board)[k].1
                },
        decreases npcs@.len() - i,
    {
        let n = &npcs[i];
        let ghost done = refresh_pairs(npcs@.take(i as int), *board);
        match &n.server {
            Some(name) => {
                let st = board.get(name.as_str());
                let mut j: usize = 0;
                while j < n.holograms.len()
                    invariant
                        j <= n.holograms@.len(),
                        st == board.status_of(n.server->Some_0@),
                        out@.len() == done.len() + line_refreshes(
                            n.holograms@.take(j as int),
                            st,
                        ).len(),
                        forall|k: int|
                            0 <= k < done.len() ==> (#[trigger] out@[k]).0 == done[k].0
                                && out@[k].1@ == done[k].1,
                        forall|k: int|
                            0 <= k < out@.len() - done.len() ==> {
                                &&& (#[trigger] out@[done.len() + k]).0 == line_refreshes(
                                    n.holograms@.take(j as int),
                                    st,
                                )[k].0
                                &&& out@[done.len() + k].1@ == line_refreshes(
                                    n.holograms@.take(j as int),
                                    st,
                                )[k].1
                            },
                    decreases n.holograms@.len() - j,
                {
                    proof {
                        lemma_line_refreshes_snoc(
                            n.holograms@.take(j as int),
                            n.holograms@[j as int],
                            st,
                        );
                        assert(n.holograms@.take(j as int).push(n.holograms@[j as int])
                            =~= n.holograms@.take(j as int + 1));
                    }
                    if has_placeholders(n.holograms[j].text.as_str()) {
                        let rendered = resolve_placeholders(n.holograms[j].text.as_str(), &st);
                        out.push((n.holograms[j].entity_id, rendered));
                    }
                    j = j + 1;
                }
                proof {
                    assert(n.holograms@.take(n.holograms@.len() as int) =~= n.holograms@);
                    let rec = rec_refreshes(npcs@[i as int], *board);
                    assert(rec == line_refreshes(n.holograms@, st));
                    lemma_refresh_pairs_snoc(npcs@.take(i as int), npcs@[i as int], *board);
                    assert(npcs@.take(i as int).push(npcs@[i as int]) =~= npcs@.take(
                        i as int + 1,
                    ));
                    let full = refresh_pairs(npcs@.take(i as int + 1), *board);
                    assert(full == done + rec);
                    assert(out@.len() == full.len());
                    assert forall|k: int|
                        0 <= k < out@.len() implies ((#[trigger] out@[k]).0 == full[k].0
                        && out@[k].1@ == full[k].1) by {
                        if k < done.len() {
                            assert(full[k] == done[k]);
                        } else {
                            assert(full[k] == rec[k - done.len()]);
                            assert(out@[done.len() + (k - done.len())].0 == rec[k
                                - done.len()].0);
                        }
                    }
                }
            },
            None => {
                proof {
                    let rec = rec_refreshes(npcs@[i as int], *board);
                    assert(rec =~= Seq::<(i32, Seq<char>)>::empty());
                    lemma_refresh_pairs_snoc(npcs@.take(i as int), npcs@[i as int], *board);
                    assert(npcs@.take(i as int).push(npcs@[i as int]) =~= npcs@.take(
                        i as int + 1,
                    ));
                    let full = refresh_pairs(npcs@.take(i as int + 1), *board);
                    assert(full =~= done);
                    assert(out@.len() == full.len());
                }
            },
        }
        i = i + 1;
    }
    proof {
        assert(npcs@.take(npcs@.len() as int) =~= npcs@);
    }
    out
}

/// One more label line appends its refresh, when its text mentions a
/// placeholder.
proof fn lemma_line_refreshes_snoc(lines: Seq<HologramLine>, l: HologramLine, st: ServerStatus)
    ensures
        line_refreshes(lines.push(l), st) == line_refreshes(lines, st) + (if has_placeholder_spec(
            l.text@,
        ) {
            seq![(l.entity_id, resolved_spec(l.text@, st))]
        } else {
            Seq::<(i32, Seq<char>)>::empty()
        }),
    decreases lines.len(),
{
    let tail: Seq<(i32, Seq<char>)> = if has_placeholder_spec(l.text@) {
        seq![(l.entity_id, resolved_spec(l.text@, st))]
    } else {
        Seq::empty()
    };
    if lines.len() == 0 {
        assert(lines.push(l) =~= seq![l]);
        assert(seq![l].skip(1) =~= Seq::<HologramLine>::empty());
        assert(line_refreshes(seq![l], st) == tail + line_refreshes(
            Seq::<HologramLine>::empty(),
            st,
        ));
        assert(tail + Seq::<(i32, Seq<char>)>::empty() =~= tail);
        assert(line_refreshes(lines, st) + tail =~= tail);
    } else {
        lemma_line_refreshes_snoc(lines.skip(1), l, st);
        assert(lines.push(l).skip(1) =~= lines.skip(1).push(l));
        assert(lines.push(l)[0] == lines[0]);
        let head: Seq<(i32, Seq<char>)> = if has_placeholder_spec(lines[0].text@) {
            seq![(lines[0].entity_id, resolved_spec(lines[0].text@, st))]
        } else {
            Seq::empty()
        };
        assert(head + (line_refreshes(lines.skip(1), st) + tail) =~= (head + line_refreshes(
            lines.skip(1),
            st,
        )) + tail);
    }
}

} // verus!
