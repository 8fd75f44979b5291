//! The persisted snapshot of the registry: a human-editable, line-oriented
//! key-value format. Each record is a block opened by `[[npcs]]`, with one
//! `key = value` line per field: coordinates in thousandths of a block,
//! angles in tenths of a degree, strings quoted with backslash escapes,
//! label lines one per `hologram` key in order. Runtime-only fields
//! (identity, entity handles) are never written. The parser reads exactly
//! the canonical form the renderer emits; anything else is malformed, and
//! a malformed file loads as zero records.

use vstd::prelude::*;

use crate::digits::{
    dec_str, dec_val, sdec_str, sdec_val, all_digits, is_sdec, push_char, append_u64, append_i64,
    parse_u64_range, lemma_dec_round_trip, lemma_dec_val_nonneg,
};
use crate::text::{escape_spec, unescape_spec, append_escaped, unescape_range, contains_char,
    lemma_unescape_escape, lemma_escape_no_newline, lemma_escape_snoc};
use crate::model::{Npc, NpcLocation, NpcSkin, HologramLine, COORD_LIMIT};
use crate::status::{ServerAddress, render_address, parse_address};

verus! {

/// The persisted fields of one record, as mathematical values.
pub struct PRec {
    pub id: u32,
    pub name: Seq<char>,
    pub x: i64,
    pub y: i64,
    pub z: i64,
    pub yaw: i32,
    pub pitch: i32,
    pub look: bool,
    pub skin: Option<(Seq<char>, Seq<char>)>,
    pub labels: Seq<Seq<char>>,
    pub server: Option<Seq<char>>,
}

/// The persisted view of an in-memory record.
pub open spec fn prec_of(n: Npc) -> PRec {
    PRec {
        id: n.id,
        name: n.name@,
        x: n.location.x,
        y: n.location.y,
        z: n.location.z,
        yaw: n.location.yaw,
        pitch: n.location.pitch,
        look: n.look_at_nearest,
        skin: match n.skin {
            Some(s) => Some((s.textures@, s.signature@)),
            None => None,
        },
        labels: Seq::new(n.holograms@.len(), |i: int| n.holograms@[i].text@),
        server: match n.server {
            Some(s) => Some(s@),
            None => None,
        },
    }
}

/// The record's coordinates lie inside the world bound the parser accepts.
pub open spec fn prec_bounded(r: PRec) -> bool {
    &&& -COORD_LIMIT <= r.x <= COORD_LIMIT
    &&& -COORD_LIMIT <= r.y <= COORD_LIMIT
    &&& -COORD_LIMIT <= r.z <= COORD_LIMIT
}

pub open spec fn header_line() -> Seq<char> {
    seq!['[', '[', 'n', 'p', 'c', 's', ']', ']']
}

pub open spec fn key_id() -> Seq<char> {
    seq!['i', 'd', ' ', '=', ' ']
}

pub open spec fn key_name() -> Seq<char> {
    seq!['n', 'a', 'm', 'e', ' ', '=', ' ']
}

pub open spec fn key_x() -> Seq<char> {
    seq!['x', ' ', '=', ' ']
}

pub open spec fn key_y() -> Seq<char> {
    seq!['y', ' ', '=', ' ']
}

pub open spec fn key_z() -> Seq<char> {
    seq!['z', ' ', '=', ' ']
}

pub open spec fn key_yaw() -> Seq<char> {
    seq!['y', 'a', 'w', ' ', '=', ' ']
}

pub open spec fn key_pitch() -> Seq<char> {
    seq!['p', 'i', 't', 'c', 'h', ' ', '=', ' ']
}

pub open spec fn key_look() -> Seq<char> {
    seq!['l', 'o', 'o', 'k', '_', 'a', 't', '_', 'n', 'e', 'a', 'r', 'e', 's', 't', ' ', '=', ' ']
}

pub open spec fn key_tex() -> Seq<char> {
    seq!['s', 'k', 'i', 'n', '_', 't', 'e', 'x', 't', 'u', 'r', 'e', 's', ' ', '=', ' ']
}

pub open spec fn key_sig() -> Seq<char> {
    seq!['s', 'k', 'i', 'n', '_', 's', 'i', 'g', 'n', 'a', 't', 'u', 'r', 'e', ' ', '=', ' ']
}

pub open spec fn key_holo() -> Seq<char> {
    seq!['h', 'o', 'l', 'o', 'g', 'r', 'a', 'm', ' ', '=', ' ']
}

pub open spec fn key_server() -> Seq<char> {
    seq!['s', 'e', 'r', 'v', 'e', 'r', ' ', '=', ' ']
}

pub open spec fn bool_str(b: bool) -> Seq<char> {
    if b {
        seq!['t', 'r', 'u', 'e']
    } else {
        seq!['f', 'a', 'l', 's', 'e']
    }
}

/// A quoted-value line: the key, a quote, the escaped value, a quote.
pub open spec fn qline(key: Seq<char>, v: Seq<char>) -> Seq<char> {
    key + seq!['"'] + escape_spec(v) + seq!['"']
}

/// The lines of the optional skin section: textures then signature.
pub open spec fn skin_lines(skin: Option<(Seq<char>, Seq<char>)>) -> Seq<Seq<char>> {
    match skin {
        Some(p) => seq![qline(key_tex(), p.0), qline(key_sig(), p.1)],
        None => Seq::empty(),
    }
}

/// One line per label, in order.
pub open spec fn label_lines(labels: Seq<Seq<char>>) -> Seq<Seq<char>> {
    Seq::new(labels.len(), |i: int| qline(key_holo(), labels[i]))
}

pub open spec fn server_lines(server: Option<Seq<char>>) -> Seq<Seq<char>> {
    match server {
        Some(v) => seq![qline(key_server(), v)],
        None => Seq::empty(),
    }
}

/// The fixed head of a record block: header and the eight required fields.
pub open spec fn head_lines(r: PRec) -> Seq<Seq<char>> {
    seq![
        header_line(),
        key_id() + dec_str(r.id as int),
        qline(key_name(), r.name),
        key_x() + sdec_str(r.x as int),
        key_y() + sdec_str(r.y as int),
        key_z() + sdec_str(r.z as int),
        key_yaw() + sdec_str(r.yaw as int),
        key_pitch() + sdec_str(r.pitch as int),
        key_look() + bool_str(r.look),
    ]
}

/// All lines of one record block, ending with a blank separator line.
pub open spec fn rec_lines(r: PRec) -> Seq<Seq<char>> {
    head_lines(r) + skin_lines(r.skin) + label_lines(r.labels) + server_lines(r.server) + seq![
        Seq::<char>::empty(),
    ]
}

/// The lines of a whole snapshot: the records' blocks in order.
pub open spec fn all_lines(rs: Seq<PRec>) -> Seq<Seq<char>>
    decreases rs.len(),
{
    if rs.len() == 0 {
        Seq::empty()
    } else {
        rec_lines(rs[0]) + all_lines(rs.skip(1))
    }
}

/// Joins lines into file text, a newline after every line.
pub open spec fn join_nl(lines: Seq<Seq<char>>) -> Seq<char>
    decreases lines.len(),
{
    if lines.len() == 0 {
        Seq::empty()
    } else {
        lines[0] + seq!['\n'] + join_nl(lines.skip(1))
    }
}

/// The rendered snapshot of a sequence of records.
pub open spec fn render_file(rs: Seq<PRec>) -> Seq<char> {
    join_nl(all_lines(rs))
}

/// Joining distributes over concatenation of line lists.
pub proof fn lemma_join_nl_add(a: Seq<Seq<char>>, b: Seq<Seq<char>>)
    ensures
        join_nl(a + b) == join_nl(a) + join_nl(b),
    decreases a.len(),
{
    if a.len() == 0 {
        assert(a + b =~= b);
        assert(join_nl(a) + join_nl(b) =~= join_nl(b));
    } else {
        lemma_join_nl_add(a.skip(1), b);
        assert((a + b).skip(1) =~= a.skip(1) + b);
        assert((a + b)[0] == a[0]);
        assert(join_nl(a + b) == (a + b)[0] + seq!['\n'] + join_nl((a + b).skip(1)));
        assert((a[0] + seq!['\n'] + (join_nl(a.skip(1)) + join_nl(b))) =~= ((a[0] + seq!['\n']
            + join_nl(a.skip(1))) + join_nl(b)));
    }
}

/// Joining one more line appends it and a newline.
pub proof fn lemma_join_nl_snoc(lines: Seq<Seq<char>>, l: Seq<char>)
    ensures
        join_nl(lines.push(l)) == join_nl(lines) + l + seq!['\n'],
{
    assert(lines.push(l) =~= lines + seq![l]);
    lemma_join_nl_add(lines, seq![l]);
    assert(join_nl(seq![l]) == seq![l][0] + seq!['\n'] + join_nl(seq![l].skip(1)));
    assert(seq![l].skip(1) =~= Seq::<Seq<char>>::empty());
    assert(join_nl(seq![l]) =~= l + seq!['\n']);
    assert(join_nl(lines) + (l + seq!['\n']) =~= join_nl(lines) + l + seq!['\n']);
}

fn push_header(out: &mut String)
    ensures
        final(out)@ == old(out)@ + header_line(),
{
    proof {
        reveal_strlit("[[npcs]]");
        assert(("[[npcs]]")@ =~= header_line());
    }
    out.append("[[npcs]]");
}

fn push_key_id(out: &mut String)
    ensures
        final(out)@ == old(out)@ + key_id(),
{
    proof {
        reveal_strlit("id = ");
        assert(("id = ")@ =~= key_id());
    }
    out.append("id = ");
}

fn push_key_name(out: &mut String)
    ensures
        final(out)@ == old(out)@ + key_name(),
{
    proof {
        reveal_strlit("name = ");
        assert(("name = ")@ =~= key_name());
    }
    out.append("name = ");
}

fn push_key_x(out: &mut String)
    ensures
        final(out)@ == old(out)@ + key_x(),
{
    proof {
        reveal_strlit("x = ");
        assert(("x = ")@ =~= key_x());
    }
    out.append("x = ");
}

fn push_key_y(out: &mut String)
    ensures
        final(out)@ == old(out)@ + key_y(),
{
    proof {
        reveal_strlit("y = ");
        assert(("y = ")@ =~= key_y());
    }
    out.append("y = ");
}

fn push_key_z(out: &mut String)
    ensures
        final(out)@ == old(out)@ + key_z(),
{
    proof {
        reveal_strlit("z = ");
        assert(("z = ")@ =~= key_z());
    }
    out.append("z = ");
}

fn push_key_yaw(out: &mut String)
    ensures
        final(out)@ == old(out)@ + key_yaw(),
{
    proof {
        reveal_strlit("yaw = ");
        assert(("yaw = ")@ =~= key_yaw());
    }
    out.append("yaw = ");
}

fn push_key_pitch(out: &mut String)
    ensures
        final(out)@ == old(out)@ + key_pitch(),
{
    proof {
        reveal_strlit("pitch = ");
        assert(("pitch = ")@ =~= key_pitch());
    }
    out.append("pitch = ");
}

fn push_key_look(out: &mut String)
    ensures
        final(out)@ == old(out)@ + key_look(),
{
    proof {
        reveal_strlit("look_at_nearest = ");
        assert(("look_at_nearest = ")@ =~= key_look());
    }
    out.append("look_at_nearest = ");
}

fn push_key_tex(out: &mut String)
    ensures
        final(out)@ == old(out)@ + key_tex(),
{
    proof {
        reveal_strlit("skin_textures = ");
        assert(("skin_textures = ")@ =~= key_tex());
    }
    out.append("skin_textures = ");
}

fn push_key_sig(out: &mut String)
    ensures
        final(out)@ == old(out)@ + key_sig(),
{
    proof {
        reveal_strlit("skin_signature = ");
        assert(("skin_signature = ")@ =~= key_sig());
    }
    out.append("skin_signature = ");
}

fn push_key_holo(out: &mut String)
    ensures
        final(out)@ == old(out)@ + key_holo(),
{
    proof {
        reveal_strlit("hologram = ");
        assert(("hologram = ")@ =~= key_holo());
    }
    out.append("hologram = ");
}

fn push_key_server(out: &mut String)
    ensures
        final(out)@ == old(out)@ + key_server(),
{
    proof {
        reveal_strlit("server = ");
        assert(("server = ")@ =~= key_server());
    }
    out.append("server = ");
}

fn push_bool(out: &mut String, b: bool)
    ensures
        final(out)@ == old(out)@ + bool_str(b),
{
    if b {
        proof {
            reveal_strlit("true");
            assert(("true")@ =~= bool_str(true));
        }
        out.append("true");
    } else {
        proof {
            reveal_strlit("false");
            assert(("false")@ =~= bool_str(false));
        }
        out.append("false");
    }
}

/// Appends a quoted, escaped value.
fn push_quoted(out: &mut String, v: &str)
    ensures
        final(out)@ == old(out)@ + (seq!['"'] + escape_spec(v@) + seq!['"']),
{
    push_char(out, '"');
    append_escaped(out, v);
    push_char(out, '"');
    proof {
        assert(final(out)@ =~= old(out)@ + (seq!['"'] + escape_spec(v@) + seq!['"']));
    }
}

/// Renders the snapshot block of one record, every line followed by a
/// newline.
#[verifier::rlimit(100)]
#[verifier::spinoff_prover]
fn append_rec(out: &mut String, npc: &Npc)
    ensures
        final(out)@ == old(out)@ + join_nl(rec_lines(prec_of(*npc))),
{
    let ghost r = prec_of(*npc);
    let ghost mut ls: Seq<Seq<char>> = Seq::empty();
    proof {
        assert(out@ =~= old(out)@ + join_nl(ls));
    }
    // header
    let ghost base = out@;
    push_header(out);
    push_char(out, '\n');
    proof {
        lemma_join_nl_snoc(ls, header_line());
        ls = ls.push(header_line());
        assert(out@ =~= old(out)@ + join_nl(ls));
    }
    // id
    let ghost base = out@;
    push_key_id(out);
    append_u64(out, npc.id as u64);
    push_char(out, '\n');
    proof {
        let l = key_id() + dec_str(r.id as int);
        assert(out@ =~= (old(out)@ + join_nl(ls)) + l + seq!['\n']);
        lemma_join_nl_snoc(ls, l);
        ls = ls.push(l);
        assert(out@ =~= old(out)@ + join_nl(ls));
    }
    // name
    push_key_name(out);
    push_quoted(out, self_name(npc));
    push_char(out, '\n');
    proof {
        let l = qline(key_name(), r.name);
        assert(out@ =~= (old(out)@ + join_nl(ls)) + l + seq!['\n']);
        lemma_join_nl_snoc(ls, l);
        ls = ls.push(l);
        assert(out@ =~= old(out)@ + join_nl(ls));
    }
    // x, y, z
    push_key_x(out);
    append_i64(out, npc.location.x);
    push_char(out, '\n');
    proof {
        let l = key_x() + sdec_str(r.x as int);
        assert(out@ =~= (old(out)@ + join_nl(ls)) + l + seq!['\n']);
        lemma_join_nl_snoc(ls, l);
        ls = ls.push(l);
        assert(out@ =~= old(out)@ + join_nl(ls));
    }
    push_key_y(out);
    append_i64(out, npc.location.y);
    push_char(out, '\n');
    proof {
        let l = key_y() + sdec_str(r.y as int);
        assert(out@ =~= (old(out)@ + join_nl(ls)) + l + seq!['\n']);
        lemma_join_nl_snoc(ls, l);
        ls = ls.push(l);
        assert(out@ =~= old(out)@ + join_nl(ls));
    }
    push_key_z(out);
    append_i64(out, npc.location.z);
    push_char(out, '\n');
    proof {
        let l = key_z() + sdec_str(r.z as int);
        assert(out@ =~= (old(out)@ + join_nl(ls)) + l + seq!['\n']);
        lemma_join_nl_snoc(ls, l);
        ls = ls.push(l);
        assert(out@ =~= old(out)@ + join_nl(ls));
    }
    // yaw, pitch
    push_key_yaw(out);
    append_i64(out, npc.location.yaw as i64);
    push_char(out, '\n');
    proof {
        let l = key_yaw() + sdec_str(r.yaw as int);
        assert(out@ =~= (old(out)@ + join_nl(ls)) + l + seq!['\n']);
        lemma_join_nl_snoc(ls, l);
        ls = ls.push(l);
        assert(out@ =~= old(out)@ + join_nl(ls));
    }
    push_key_pitch(out);
    append_i64(out, npc.location.pitch as i64);
    push_char(out, '\n');
    proof {
        let l = key_pitch() + sdec_str(r.pitch as int);
        assert(out@ =~= (old(out)@ + join_nl(ls)) + l + seq!['\n']);
        lemma_join_nl_snoc(ls, l);
        ls = ls.push(l);
        assert(out@ =~= old(out)@ + join_nl(ls));
    }
    // look_at_nearest
    push_key_look(out);
    push_bool(out, npc.look_at_nearest);
    push_char(out, '\n');
    proof {
        let l = key_look() + bool_str(r.look);
        assert(out@ =~= (old(out)@ + join_nl(ls)) + l + seq!['\n']);
        lemma_join_nl_snoc(ls, l);
        ls = ls.push(l);
        assert(out@ =~= old(out)@ + join_nl(ls));
        assert(ls =~= head_lines(r));
    }
    // optional skin
    match &npc.skin {
        Some(skin) => {
            push_key_tex(out);
            push_quoted(out, skin.textures.as_str());
            push_char(out, '\n');
            proof {
                let l = qline(key_tex(), skin.textures@);
                assert(out@ =~= (old(out)@ + join_nl(ls)) + l + seq!['\n']);
                lemma_join_nl_snoc(ls, l);
                ls = ls.push(l);
                assert(out@ =~= old(out)@ + join_nl(ls));
            }
            push_key_sig(out);
            push_quoted(out, skin.signature.as_str());
            push_char(out, '\n');
            proof {
                let l = qline(key_sig(), skin.signature@);
                assert(out@ =~= (old(out)@ + join_nl(ls)) + l + seq!['\n']);
                lemma_join_nl_snoc(ls, l);
                ls = ls.push(l);
                assert(out@ =~= old(out)@ + join_nl(ls));
                assert(ls =~= head_lines(r) + skin_lines(r.skin));
            }
        },
        None => {
            proof {
                assert(ls =~= head_lines(r) + skin_lines(r.skin));
            }
        },
    }
    // labels
    let ghost before_labels = ls;
    let mut k: usize = 0;
    while k < npc.holograms.len()
        invariant
            k <= npc.holograms@.len(),
            r == prec_of(*npc),
            before_labels == head_lines(r) + skin_lines(r.skin),
            ls == before_labels + label_lines(r.labels.take(k as int)),
            out@ == old(out)@ + join_nl(ls),
        decreases npc.holograms@.len() - k,
    {
        push_key_holo(out);
        push_quoted(out, npc.holograms[k].text.as_str());
        push_char(out, '\n');
        proof {
            let l = qline(key_holo(), r.labels[k as int]);
            assert(out@ =~= (old(out)@ + join_nl(ls)) + l + seq!['\n']);
            lemma_join_nl_snoc(ls, l);
            ls = ls.push(l);
            assert(out@ =~= old(out)@ + join_nl(ls));
            assert(label_lines(r.labels.take(k as int + 1)) =~= label_lines(
                r.labels.take(k as int),
            ).push(l));
            assert(ls =~= before_labels + label_lines(r.labels.take(k as int + 1)));
        }
        k = k + 1;
    }
    proof {
        assert(r.labels.take(npc.holograms@.len() as int) =~= r.labels);
        assert(ls =~= head_lines(r) + skin_lines(r.skin) + label_lines(r.labels));
    }
    // optional server
    match &npc.server {
        Some(name) => {
            push_key_server(out);
            push_quoted(out, name.as_str());
            push_char(out, '\n');
            proof {
                let l = qline(key_server(), name@);
                assert(out@ =~= (old(out)@ + join_nl(ls)) + l + seq!['\n']);
                lemma_join_nl_snoc(ls, l);
                ls = ls.push(l);
                assert(out@ =~= old(out)@ + join_nl(ls));
                assert(ls =~= head_lines(r) + skin_lines(r.skin) + label_lines(r.labels)
                    + server_lines(r.server));
            }
        },
        None => {
            proof {
                assert(ls =~= head_lines(r) + skin_lines(r.skin) + label_lines(r.labels)
                    + server_lines(r.server));
            }
        },
    }
    // blank separator line
    push_char(out, '\n');
    proof {
        let l = Seq::<char>::empty();
        assert(out@ =~= (old(out)@ + join_nl(ls)) + l + seq!['\n']);
        lemma_join_nl_snoc(ls, l);
        ls = ls.push(l);
        assert(out@ =~= old(out)@ + join_nl(ls));
        assert(ls =~= rec_lines(r));
    }
}

/// A borrow of the record's name for rendering.
fn self_name(npc: &Npc) -> (r: &str)
    ensures
        r@ == npc.name@,
{
    npc.name.as_str()
}

/// The persisted views of a vector of records, in order.
pub open spec fn precs_of(records: Seq<Npc>) -> Seq<PRec> {
    Seq::new(records.len(), |i: int| prec_of(records[i]))
}

/// Renders the whole snapshot for a vector of records.
pub fn render_npcs(records: &Vec<Npc>) -> (s: String)
    ensures
        s@ == render_file(precs_of(records@)),
{
    let ghost precs = precs_of(records@);
    let mut out = String::new();
    let mut i: usize = 0;
    proof {
        assert(all_lines(precs.take(0)) =~= Seq::<Seq<char>>::empty());
        assert(out@ =~= join_nl(all_lines(precs.take(0))));
    }
    while i < records.len()
        invariant
            i <= records@.len(),
            precs == precs_of(records@),
            out@ == join_nl(all_lines(precs.take(i as int))),
        decreases records@.len() - i,
    {
        let ghost base = out@;
        append_rec(&mut out, &records[i]);
        proof {
            assert(precs.take(i as int).push(precs[i as int]) =~= precs.take(i as int + 1));
            lemma_all_lines_snoc(precs.take(i as int), precs[i as int]);
            lemma_join_nl_add(all_lines(precs.take(i as int)), rec_lines(precs[i as int]));
            assert(out@ =~= join_nl(all_lines(precs.take(i as int + 1))));
        }
        i = i + 1;
    }
    proof {
        assert(precs.take(records@.len() as int) =~= precs);
    }
    out
}

/// The position of the first newline in `s`, or -1 when there is none.
pub open spec fn first_nl(s: Seq<char>) -> int
    decreases s.len(),
{
    if s.len() == 0 {
        -1
    } else if s[0] == '\n' {
        0
    } else {
        let r = first_nl(s.skip(1));
        if r < 0 {
            -1
        } else {
            r + 1
        }
    }
}

/// The first newline lies inside the text, when there is one.
pub proof fn lemma_first_nl_range(s: Seq<char>)
    ensures
        first_nl(s) < s.len(),
        first_nl(s) >= 0 ==> s[first_nl(s)] == '\n',
        first_nl(s) >= 0 ==> forall|k: int| 0 <= k < first_nl(s) ==> s[k] != '\n',
        first_nl(s) < 0 ==> !contains_char(s, '\n'),
    decreases s.len(),
{
    if s.len() > 0 && s[0] != '\n' {
        lemma_first_nl_range(s.skip(1));
        let r = first_nl(s.skip(1));
        if r >= 0 {
            assert(s[r + 1] == s.skip(1)[r]);
            assert forall|k: int| 0 <= k < r + 1 implies s[k] != '\n' by {
                if k > 0 {
                    assert(s.skip(1)[k - 1] == s[k]);
                }
            }
        } else {
            assert forall|k: int| 0 <= k < s.len() implies s[k] != '\n' by {
                if k > 0 {
                    assert(s.skip(1)[k - 1] == s[k]);
                    assert(!contains_char(s.skip(1), '\n'));
                }
            }
        }
    }
}

/// The file text cut at each newline; a trailing fragment without a
/// newline is one more line.
pub open spec fn split_lines(s: Seq<char>) -> Seq<Seq<char>>
    decreases s.len(),
    via split_lines_dec
{
    if s.len() == 0 {
        Seq::empty()
    } else {
        let i = first_nl(s);
        if i < 0 {
            seq![s]
        } else {
            seq![s.take(i)] + split_lines(s.skip(i + 1))
        }
    }
}

#[via_fn]
proof fn split_lines_dec(s: Seq<char>) {
    lemma_first_nl_range(s);
}

/// In text of the form `l0 ++ '\n' ++ t` with `l0` newline-free, the first
/// newline stands right after `l0`.
pub proof fn lemma_first_nl_concat(l0: Seq<char>, t: Seq<char>)
    requires
        !contains_char(l0, '\n'),
    ensures
        first_nl(l0 + seq!['\n'] + t) == l0.len(),
    decreases l0.len(),
{
    let s = l0 + seq!['\n'] + t;
    if l0.len() == 0 {
        assert(s[0] == '\n');
    } else {
        assert(s[0] == l0[0]);
        assert(l0[0] != '\n');
        assert forall|k: int| 0 <= k < l0.skip(1).len() implies l0.skip(1)[k] != '\n' by {
            assert(l0.skip(1)[k] == l0[k + 1]);
        }
        lemma_first_nl_concat(l0.skip(1), t);
        assert(s.skip(1) =~= l0.skip(1) + seq!['\n'] + t);
    }
}

/// Splitting joined newline-free lines gives the lines back.
pub proof fn lemma_split_join(lines: Seq<Seq<char>>)
    requires
        forall|k: int| 0 <= k < lines.len() ==> !contains_char(#[trigger] lines[k], '\n'),
    ensures
        split_lines(join_nl(lines)) == lines,
    decreases lines.len(),
{
    if lines.len() > 0 {
        let l0 = lines[0];
        let s = join_nl(lines);
        assert(s == l0 + seq!['\n'] + join_nl(lines.skip(1)));
        lemma_first_nl_concat(l0, join_nl(lines.skip(1)));
        assert(s.len() > 0);
        let i = first_nl(s);
        assert(i == l0.len());
        assert(s.take(i) =~= l0);
        assert(s.skip(i + 1) =~= join_nl(lines.skip(1)));
        assert forall|k: int| 0 <= k < lines.skip(1).len() implies !contains_char(
            #[trigger] lines.skip(1)[k],
            '\n',
        ) by {
            assert(lines.skip(1)[k] == lines[k + 1]);
        }
        lemma_split_join(lines.skip(1));
        assert(split_lines(s) =~= lines);
    }
}

/// The line opens with the given key.
pub open spec fn starts_key(line: Seq<char>, key: Seq<char>) -> bool {
    line.len() >= key.len() && line.take(key.len() as int) == key
}

/// Reads `key` followed by an unsigned decimal that fits a `u32`.
pub open spec fn parse_u32_line(line: Seq<char>, key: Seq<char>) -> Option<u32> {
    if starts_key(line, key) {
        let ds = line.skip(key.len() as int);
        if ds.len() >= 1 && all_digits(ds) && dec_val(ds) <= u32::MAX {
            Some(dec_val(ds) as u32)
        } else {
            None
        }
    } else {
        None
    }
}

/// Reads `key` followed by a signed decimal within `[lo, hi]`.
pub open spec fn parse_int_line(line: Seq<char>, key: Seq<char>, lo: int, hi: int) -> Option<
    int,
> {
    if starts_key(line, key) {
        let vs = line.skip(key.len() as int);
        if is_sdec(vs) && lo <= sdec_val(vs) <= hi {
            Some(sdec_val(vs))
        } else {
            None
        }
    } else {
        None
    }
}

/// Reads `key` followed by a quoted, escaped value.
pub open spec fn parse_q_line(line: Seq<char>, key: Seq<char>) -> Option<Seq<char>> {
    if starts_key(line, key) && line.len() >= key.len() + 2 && line[key.len() as int] == '"'
        && line.last() == '"' {
        unescape_spec(line.subrange(key.len() as int + 1, line.len() - 1))
    } else {
        None
    }
}

/// Reads `key` followed by `true` or `false`.
pub open spec fn parse_bool_line(line: Seq<char>, key: Seq<char>) -> Option<bool> {
    if starts_key(line, key) {
        let vs = line.skip(key.len() as int);
        if vs == bool_str(true) {
            Some(true)
        } else if vs == bool_str(false) {
            Some(false)
        } else {
            None
        }
    } else {
        None
    }
}

/// Reads consecutive `hologram` lines from `pos`.
pub open spec fn parse_labels_at(lines: Seq<Seq<char>>, pos: int) -> Option<(Seq<Seq<char>>, int)>
    decreases lines.len() - pos when 0 <= pos <= lines.len()
{
    if pos < lines.len() && starts_key(lines[pos], key_holo()) {
        match parse_q_line(lines[pos], key_holo()) {
            Some(v) => match parse_labels_at(lines, pos + 1) {
                Some(p) => Some((seq![v] + p.0, p.1)),
                None => None,
            },
            None => None,
        }
    } else {
        Some((Seq::empty(), pos))
    }
}

/// Reads the optional skin pair at `p0`: the two skin lines when the
/// textures key opens the line there, else nothing.
pub open spec fn skin_step_at(lines: Seq<Seq<char>>, p0: int) -> Option<(Option<(Seq<char>, Seq<char>)>, int)> {
    if p0 < lines.len() && starts_key(lines[p0], key_tex()) {
        if p0 + 1 < lines.len() {
            match (parse_q_line(lines[p0], key_tex()), parse_q_line(lines[p0 + 1], key_sig())) {
                (Some(t), Some(g)) => Some((Some((t, g)), p0 + 2)),
                _ => None,
            }
        } else {
            None
        }
    } else {
        Some((None, p0))
    }
}

/// Reads the optional server line at `p2`.
pub open spec fn server_step_at(lines: Seq<Seq<char>>, p2: int) -> Option<(Option<Seq<char>>, int)> {
    if p2 < lines.len() && starts_key(lines[p2], key_server()) {
        match parse_q_line(lines[p2], key_server()) {
            Some(v) => Some((Some(v), p2 + 1)),
            None => None,
        }
    } else {
        Some((None, p2))
    }
}

/// Reads one record block starting at line `pos`: the header, the eight
/// required fields, then the optional skin pair, the labels, the optional
/// server link, and the blank separator line.
pub open spec fn parse_rec_at(lines: Seq<Seq<char>>, pos: int) -> Option<(PRec, int)> {
    if 0 <= pos && pos + 9 <= lines.len() && lines[pos] == header_line() {
        let idv = parse_u32_line(lines[pos + 1], key_id());
        let namev = parse_q_line(lines[pos + 2], key_name());
        let xv = parse_int_line(lines[pos + 3], key_x(), -COORD_LIMIT as int, COORD_LIMIT as int);
        let yv = parse_int_line(lines[pos + 4], key_y(), -COORD_LIMIT as int, COORD_LIMIT as int);
        let zv = parse_int_line(lines[pos + 5], key_z(), -COORD_LIMIT as int, COORD_LIMIT as int);
        let yawv = parse_int_line(lines[pos + 6], key_yaw(), i32::MIN as int, i32::MAX as int);
        let pitchv = parse_int_line(lines[pos + 7], key_pitch(), i32::MIN as int, i32::MAX as int);
        let lookv = parse_bool_line(lines[pos + 8], key_look());
        if idv is Some && namev is Some && xv is Some && yv is Some && zv is Some && yawv is Some
            && pitchv is Some && lookv is Some {
            let p0 = pos + 9;
            match skin_step_at(lines, p0) {
                Some(sk) => match parse_labels_at(lines, sk.1) {
                    Some(lb) => {
                        let p2 = lb.1;
                        match server_step_at(lines, p2) {
                            Some(sv) => {
                                let p3 = sv.1;
                                if p3 < lines.len() && lines[p3].len() == 0 {
                                    Some(
                                        (
                                            PRec {
                                                id: idv->Some_0,
                                                name: namev->Some_0,
                                                x: xv->Some_0 as i64,
                                                y: yv->Some_0 as i64,
                                                z: zv->Some_0 as i64,
                                                yaw: yawv->Some_0 as i32,
                                                pitch: pitchv->Some_0 as i32,
                                                look: lookv->Some_0,
                                                skin: sk.0,
                                                labels: lb.0,
                                                server: sv.0,
                                            },
                                            p3 + 1,
                                        ),
                                    )
                                } else {
                                    None
                                }
                            },
                            None => None,
                        }
                    },
                    None => None,
                },
                None => None,
            }
        } else {
            None
        }
    } else {
        None
    }
}

/// Reads record blocks until the lines run out.
pub open spec fn parse_recs_at(lines: Seq<Seq<char>>, pos: int) -> Option<Seq<PRec>>
    decreases lines.len() - pos when 0 <= pos <= lines.len()
{
    if pos == lines.len() {
        Some(Seq::empty())
    } else {
        match parse_rec_at(lines, pos) {
            Some(p) => if pos < p.1 <= lines.len() {
                match parse_recs_at(lines, p.1) {
                    Some(rest) => Some(seq![p.0] + rest),
                    None => None,
                }
            } else {
                None
            },
            None => None,
        }
    }
}

/// The records a snapshot file holds, or `None` when it is malformed.
pub open spec fn parse_file(s: Seq<char>) -> Option<Seq<PRec>> {
    parse_recs_at(split_lines(s), 0)
}

/// No decimal digit is a newline, so numeric renderings stay on one line.
proof fn lemma_digits_no_nl(s: Seq<char>)
    requires
        all_digits(s),
    ensures
        !contains_char(s, '\n'),
{
    assert forall|i: int| 0 <= i < s.len() implies s[i] != '\n' by {
        assert(crate::digits::is_digit(s[i]));
    }
}

/// Concatenation holds a character only where one part does.
proof fn lemma_contains_add(a: Seq<char>, b: Seq<char>, c: char)
    ensures
        contains_char(a + b, c) <==> contains_char(a, c) || contains_char(b, c),
{
    if contains_char(a, c) {
        let i = choose|i: int| 0 <= i < a.len() && a[i] == c;
        assert((a + b)[i] == c);
    }
    if contains_char(b, c) {
        let i = choose|i: int| 0 <= i < b.len() && b[i] == c;
        assert((a + b)[a.len() + i] == c);
    }
    if contains_char(a + b, c) {
        let i = choose|i: int| 0 <= i < (a + b).len() && (a + b)[i] == c;
        if i < a.len() {
            assert(a[i] == c);
        } else {
            assert(b[i - a.len()] == c);
        }
    }
}

/// A quoted-value line never holds a newline.
proof fn lemma_qline_no_nl(key: Seq<char>, v: Seq<char>)
    requires
        !contains_char(key, '\n'),
    ensures
        !contains_char(qline(key, v), '\n'),
{
    lemma_escape_no_newline(v);
    lemma_contains_add(key, seq!['"'], '\n');
    lemma_contains_add(key + seq!['"'], escape_spec(v), '\n');
    lemma_contains_add(key + seq!['"'] + escape_spec(v), seq!['"'], '\n');
    assert(!contains_char(seq!['"'], '\n')) by {
        if contains_char(seq!['"'], '\n') {
            let i = choose|i: int| 0 <= i < 1 && seq!['"'][i] == '\n';
            assert(seq!['"'][0] == '"');
        }
    }
}

/// No line of a record's block holds a newline.
proof fn lemma_rec_lines_no_nl(r: PRec)
    ensures
        forall|k: int| 0 <= k < rec_lines(r).len() ==> !contains_char(#[trigger] rec_lines(r)[k], '\n'),
{
    let ls = rec_lines(r);
    lemma_dec_round_trip(r.id as int);
    lemma_digits_no_nl(dec_str(r.id as int));
    assert forall|k: int| 0 <= k < ls.len() implies !contains_char(#[trigger] ls[k], '\n') by {
        lemma_line_no_nl_cases(r, k);
    }
}

/// Case analysis for `lemma_rec_lines_no_nl`.
proof fn lemma_line_no_nl_cases(r: PRec, k: int)
    requires
        0 <= k < rec_lines(r).len(),
    ensures
        !contains_char(rec_lines(r)[k], '\n'),
{
    let ls = rec_lines(r);
    let nh = head_lines(r).len() as int;
    let ns = skin_lines(r.skin).len() as int;
    let nl = label_lines(r.labels).len() as int;
    let nv = server_lines(r.server).len() as int;
    if k < nh {
        if k == 0 {
            lemma_no_nl_literal(header_line());
        } else if k == 1 {
            lemma_dec_round_trip(r.id as int);
            lemma_digits_no_nl(dec_str(r.id as int));
            lemma_no_nl_literal(key_id());
            lemma_contains_add(key_id(), dec_str(r.id as int), '\n');
        } else if k == 2 {
            lemma_no_nl_literal(key_name());
            lemma_qline_no_nl(key_name(), r.name);
        } else if k == 3 {
            lemma_no_nl_literal(key_x());
            lemma_sdec_no_nl(r.x as int);
            lemma_contains_add(key_x(), sdec_str(r.x as int), '\n');
        } else if k == 4 {
            lemma_no_nl_literal(key_y());
            lemma_sdec_no_nl(r.y as int);
            lemma_contains_add(key_y(), sdec_str(r.y as int), '\n');
        } else if k == 5 {
            lemma_no_nl_literal(key_z());
            lemma_sdec_no_nl(r.z as int);
            lemma_contains_add(key_z(), sdec_str(r.z as int), '\n');
        } else if k == 6 {
            lemma_no_nl_literal(key_yaw());
            lemma_sdec_no_nl(r.yaw as int);
            lemma_contains_add(key_yaw(), sdec_str(r.yaw as int), '\n');
        } else if k == 7 {
            lemma_no_nl_literal(key_pitch());
            lemma_sdec_no_nl(r.pitch as int);
            lemma_contains_add(key_pitch(), sdec_str(r.pitch as int), '\n');
        } else {
            lemma_no_nl_literal(key_look());
            lemma_no_nl_literal(bool_str(r.look));
            lemma_contains_add(key_look(), bool_str(r.look), '\n');
        }
    } else if k < nh + ns {
        let p = r.skin->Some_0;
        lemma_no_nl_literal(key_tex());
        lemma_no_nl_literal(key_sig());
        if k == nh {
            lemma_qline_no_nl(key_tex(), p.0);
        } else {
            lemma_qline_no_nl(key_sig(), p.1);
        }
    } else if k < nh + ns + nl {
        lemma_no_nl_literal(key_holo());
        lemma_qline_no_nl(key_holo(), r.labels[k - nh - ns]);
        assert(ls[k] == label_lines(r.labels)[k - nh - ns]);
    } else if k < nh + ns + nl + nv {
        lemma_no_nl_literal(key_server());
        lemma_qline_no_nl(key_server(), r.server->Some_0);
    } else {
        assert(ls[k] =~= Seq::<char>::empty());
        assert(!contains_char(Seq::<char>::empty(), '\n'));
    }
}

/// A literal key or keyword holds no newline: every character is visible.
proof fn lemma_no_nl_literal(s: Seq<char>)
    requires
        forall|i: int| 0 <= i < s.len() ==> s[i] != '\n',
    ensures
        !contains_char(s, '\n'),
{
}

/// The signed decimal rendering holds no newline.
proof fn lemma_sdec_no_nl(v: int)
    ensures
        !contains_char(sdec_str(v), '\n'),
{
    if v < 0 {
        lemma_dec_round_trip(-v);
        lemma_digits_no_nl(dec_str(-v));
        lemma_contains_add(seq!['-'], dec_str(-v), '\n');
        assert(!contains_char(seq!['-'], '\n')) by {
            if contains_char(seq!['-'], '\n') {
                let i = choose|i: int| 0 <= i < 1 && seq!['-'][i] == '\n';
                assert(seq!['-'][0] == '-');
            }
        }
    } else {
        lemma_dec_round_trip(v);
        lemma_digits_no_nl(dec_str(v));
    }
}

/// A key-prefixed unsigned number line reads back its value.
proof fn lemma_parse_u32_inv(key: Seq<char>, id: u32)
    ensures
        parse_u32_line(key + dec_str(id as int), key) == Some(id),
{
    let line = key + dec_str(id as int);
    lemma_dec_round_trip(id as int);
    assert(line.take(key.len() as int) =~= key);
    assert(line.skip(key.len() as int) =~= dec_str(id as int));
}

/// A key-prefixed signed number line reads back its value.
proof fn lemma_parse_int_inv(key: Seq<char>, v: int, lo: int, hi: int)
    requires
        lo <= v <= hi,
    ensures
        parse_int_line(key + sdec_str(v), key, lo, hi) == Some(v),
{
    let line = key + sdec_str(v);
    assert(line.take(key.len() as int) =~= key);
    assert(line.skip(key.len() as int) =~= sdec_str(v));
    let s = sdec_str(v);
    if v < 0 {
        lemma_dec_round_trip(-v);
        assert(s[0] == '-');
        assert(s.skip(1) =~= dec_str(-v));
        assert(is_sdec(s));
        assert(sdec_val(s) == v);
    } else {
        lemma_dec_round_trip(v);
        assert(s == dec_str(v));
        assert(s.len() >= 1);
        assert(crate::digits::is_digit(s[0]));
        assert(s[0] != '-');
        assert(is_sdec(s));
        assert(sdec_val(s) == v);
    }
}

/// A quoted-value line reads back its value.
proof fn lemma_parse_q_inv(key: Seq<char>, v: Seq<char>)
    ensures
        parse_q_line(qline(key, v), key) == Some(v),
{
    let line = qline(key, v);
    assert(line.take(key.len() as int) =~= key);
    assert(line[key.len() as int] == '"');
    assert(line.last() == '"');
    assert(line.subrange(key.len() as int + 1, line.len() - 1) =~= escape_spec(v));
    lemma_unescape_escape(v);
}

/// A boolean line reads back its value.
proof fn lemma_parse_bool_inv(key: Seq<char>, b: bool)
    ensures
        parse_bool_line(key + bool_str(b), key) == Some(b),
{
    let line = key + bool_str(b);
    assert(line.take(key.len() as int) =~= key);
    assert(line.skip(key.len() as int) =~= bool_str(b));
    assert(bool_str(true) != bool_str(false)) by {
        assert(bool_str(true).len() == 4);
        assert(bool_str(false).len() == 5);
    }
}

/// A line that opens with one key does not open with a key that differs
/// at some position inside both.
proof fn lemma_not_starts(line: Seq<char>, k1: Seq<char>, k2: Seq<char>, i: int)
    requires
        starts_key(line, k1),
        0 <= i < k1.len(),
        i < k2.len(),
        k1[i] != k2[i],
    ensures
        !starts_key(line, k2),
{
    if starts_key(line, k2) {
        assert(line.take(k2.len() as int)[i] == k2[i]);
        assert(line.take(k1.len() as int)[i] == k1[i]);
        assert(line[i] == k1[i]);
        assert(line[i] == k2[i]);
    }
}

/// A quoted line opens with its own key.
proof fn lemma_qline_starts(key: Seq<char>, v: Seq<char>)
    ensures
        starts_key(qline(key, v), key),
{
    assert(qline(key, v).take(key.len() as int) =~= key);
}

/// Consecutive rendered label lines followed by a non-label line read back
/// as exactly the label values.
proof fn lemma_parse_labels_inv(lines: Seq<Seq<char>>, pos: int, ls: Seq<Seq<char>>)
    requires
        0 <= pos,
        pos + ls.len() < lines.len(),
        forall|k: int|
            0 <= k < ls.len() ==> lines[pos + k] == qline(key_holo(), #[trigger] ls[k]),
        !starts_key(lines[pos + ls.len()], key_holo()),
    ensures
        parse_labels_at(lines, pos) == Some((ls, pos + ls.len())),
    decreases ls.len(),
{
    if ls.len() == 0 {
        assert(parse_labels_at(lines, pos) == Some((Seq::<Seq<char>>::empty(), pos)));
    } else {
        assert(lines[pos] == qline(key_holo(), ls[0]));
        lemma_qline_starts(key_holo(), ls[0]);
        lemma_parse_q_inv(key_holo(), ls[0]);
        assert forall|k: int|
            0 <= k < ls.skip(1).len() implies lines[pos + 1 + k] == qline(
            key_holo(),
            #[trigger] ls.skip(1)[k],
        ) by {
            assert(ls.skip(1)[k] == ls[k + 1]);
        }
        lemma_parse_labels_inv(lines, pos + 1, ls.skip(1));
        assert(seq![ls[0]] + ls.skip(1) =~= ls);
    }
}

/// Where each line stands inside a record block.
proof fn lemma_rl_zones(r: PRec)
    ensures
        rec_lines(r).len() == 9 + skin_lines(r.skin).len() + label_lines(r.labels).len()
            + server_lines(r.server).len() + 1,
        forall|k: int| 0 <= k < 9 ==> rec_lines(r)[k] == #[trigger] head_lines(r)[k],
        forall|k: int|
            0 <= k < skin_lines(r.skin).len() ==> rec_lines(r)[9 + k] == #[trigger] skin_lines(
                r.skin,
            )[k],
        forall|k: int|
            0 <= k < label_lines(r.labels).len() ==> rec_lines(r)[9 + skin_lines(r.skin).len() + k]
                == #[trigger] label_lines(r.labels)[k],
        forall|k: int|
            0 <= k < server_lines(r.server).len() ==> rec_lines(r)[9 + skin_lines(r.skin).len()
                + label_lines(r.labels).len() + k] == #[trigger] server_lines(r.server)[k],
        rec_lines(r)[(9 + skin_lines(r.skin).len() + label_lines(r.labels).len() + server_lines(
            r.server,
        ).len()) as int] == Seq::<char>::empty(),
{
    let a1 = head_lines(r);
    let a2 = a1 + skin_lines(r.skin);
    let a3 = a2 + label_lines(r.labels);
    let a4 = a3 + server_lines(r.server);
    let a5 = a4 + seq![Seq::<char>::empty()];
    assert(rec_lines(r) == a5);
    assert(a1.len() == 9);
    assert forall|k: int| 0 <= k < 9 implies a5[k] == #[trigger] a1[k] by {
        assert(a4[k] == a3[k]);
        assert(a3[k] == a2[k]);
        assert(a2[k] == a1[k]);
    }
    assert forall|k: int| 0 <= k < skin_lines(r.skin).len() implies a5[9 + k]
        == #[trigger] skin_lines(r.skin)[k] by {
        assert(a4[9 + k] == a3[9 + k]);
        assert(a3[9 + k] == a2[9 + k]);
        assert(a2[9 + k] == skin_lines(r.skin)[k]);
    }
    let ns = skin_lines(r.skin).len() as int;
    assert forall|k: int| 0 <= k < label_lines(r.labels).len() implies a5[9 + ns + k]
        == #[trigger] label_lines(r.labels)[k] by {
        assert(a4[9 + ns + k] == a3[9 + ns + k]);
        assert(a3[9 + ns + k] == label_lines(r.labels)[k]);
    }
    let nl = label_lines(r.labels).len() as int;
    assert forall|k: int| 0 <= k < server_lines(r.server).len() implies a5[9 + ns + nl + k]
        == #[trigger] server_lines(r.server)[k] by {
        assert(a4[9 + ns + nl + k] == server_lines(r.server)[k]);
    }
    let nv = server_lines(r.server).len() as int;
    assert(a5[9 + ns + nl + nv] =~= Seq::<char>::empty());
}

/// A rendered record block reads back as the record.
#[verifier::rlimit(100)]
#[verifier::spinoff_prover]
proof fn lemma_parse_rec_inv(lines: Seq<Seq<char>>, pos: int, r: PRec)
    requires
        0 <= pos,
        pos + rec_lines(r).len() <= lines.len(),
        forall|k: int|
            0 <= k < rec_lines(r).len() ==> lines[pos + k] == #[trigger] rec_lines(r)[k],
        prec_bounded(r),
    ensures
        parse_rec_at(lines, pos) == Some((r, pos + rec_lines(r).len())),
{
    let rl = rec_lines(r);
    let nh = 9int;
    let ns = skin_lines(r.skin).len() as int;
    let nl = label_lines(r.labels).len() as int;
    let nv = server_lines(r.server).len() as int;
    lemma_rl_zones(r);
    assert(rl.len() == nh + ns + nl + nv + 1);
    assert(head_lines(r)[0] == header_line());
    assert(lines[pos] == header_line());
    assert(head_lines(r)[1] == key_id() + dec_str(r.id as int));
    assert(lines[pos + 1] == key_id() + dec_str(r.id as int));
    lemma_parse_u32_inv(key_id(), r.id);
    assert(head_lines(r)[2] == qline(key_name(), r.name));
    assert(lines[pos + 2] == qline(key_name(), r.name));
    lemma_parse_q_inv(key_name(), r.name);
    assert(head_lines(r)[3] == key_x() + sdec_str(r.x as int));
    assert(lines[pos + 3] == key_x() + sdec_str(r.x as int));
    lemma_parse_int_inv(key_x(), r.x as int, -COORD_LIMIT as int, COORD_LIMIT as int);
    assert(head_lines(r)[4] == key_y() + sdec_str(r.y as int));
    assert(lines[pos + 4] == key_y() + sdec_str(r.y as int));
    lemma_parse_int_inv(key_y(), r.y as int, -COORD_LIMIT as int, COORD_LIMIT as int);
    assert(head_lines(r)[5] == key_z() + sdec_str(r.z as int));
    assert(lines[pos + 5] == key_z() + sdec_str(r.z as int));
    lemma_parse_int_inv(key_z(), r.z as int, -COORD_LIMIT as int, COORD_LIMIT as int);
    assert(head_lines(r)[6] == key_yaw() + sdec_str(r.yaw as int));
    assert(lines[pos + 6] == key_yaw() + sdec_str(r.yaw as int));
    lemma_parse_int_inv(key_yaw(), r.yaw as int, i32::MIN as int, i32::MAX as int);
    assert(head_lines(r)[7] == key_pitch() + sdec_str(r.pitch as int));
    assert(lines[pos + 7] == key_pitch() + sdec_str(r.pitch as int));
    lemma_parse_int_inv(key_pitch(), r.pitch as int, i32::MIN as int, i32::MAX as int);
    assert(head_lines(r)[8] == key_look() + bool_str(r.look));
    assert(lines[pos + 8] == key_look() + bool_str(r.look));
    lemma_parse_bool_inv(key_look(), r.look);
    let p0 = pos + 9;
    // the line right after the head: first skin line, first label line,
    // the server line, or the blank separator
    let after_skin = p0 + ns;
    let after_labels = after_skin + nl;
    let after_server = after_labels + nv;
    assert(lines[after_server] == rl[nh + ns + nl + nv]);
    assert(rl[nh + ns + nl + nv] =~= Seq::<char>::empty());
    match r.skin {
        Some(p) => {
            assert(lines[p0] == qline(key_tex(), p.0));
            assert(lines[p0 + 1] == qline(key_sig(), p.1));
            lemma_qline_starts(key_tex(), p.0);
            lemma_parse_q_inv(key_tex(), p.0);
            lemma_parse_q_inv(key_sig(), p.1);
        },
        None => {
            // whatever stands at p0, it does not open with the textures key
            if nl > 0 {
                assert(lines[p0] == label_lines(r.labels)[0]);
                lemma_qline_starts(key_holo(), r.labels[0]);
                lemma_not_starts(lines[p0], key_holo(), key_tex(), 0);
            } else if nv > 0 {
                assert(r.server is Some);
                let sv = r.server->Some_0;
                assert(server_lines(r.server)[0] == qline(key_server(), sv));
                assert(rl[9 + ns + nl + 0] == server_lines(r.server)[0]);
                assert(lines[p0] == qline(key_server(), sv));
                lemma_qline_starts(key_server(), sv);
                lemma_not_starts(lines[p0], key_server(), key_tex(), 1);
            } else {
                assert(lines[p0].len() == 0);
            }
        },
    }
    // labels
    assert forall|k: int|
        0 <= k < r.labels.len() implies lines[after_skin + k] == qline(
        key_holo(),
        #[trigger] r.labels[k],
    ) by {
        assert(lines[after_skin + k] == rl[nh + ns + k]);
        assert(rl[nh + ns + k] == label_lines(r.labels)[k]);
    }
    if nv > 0 {
        assert(lines[after_labels] == rl[nh + ns + nl]);
        assert(rl[nh + ns + nl] == qline(key_server(), r.server->Some_0));
        lemma_qline_starts(key_server(), r.server->Some_0);
        lemma_not_starts(lines[after_labels], key_server(), key_holo(), 0);
    } else {
        assert(lines[after_labels].len() == 0);
    }
    lemma_parse_labels_inv(lines, after_skin, r.labels);
    // server
    match r.server {
        Some(v) => {
            lemma_parse_q_inv(key_server(), v);
        },
        None => {
            assert(lines[after_labels].len() == 0);
        },
    }
    assert(lines[after_server].len() == 0);
}

/// The total number of lines a record sequence renders to.
pub open spec fn total_lines(rs: Seq<PRec>) -> int {
    all_lines(rs).len() as int
}

/// A rendered sequence of record blocks reads back as the records.
#[verifier::rlimit(100)]
#[verifier::spinoff_prover]
proof fn lemma_parse_recs_inv(lines: Seq<Seq<char>>, pos: int, rs: Seq<PRec>)
    requires
        0 <= pos <= lines.len(),
        pos + total_lines(rs) == lines.len(),
        forall|k: int|
            0 <= k < all_lines(rs).len() ==> lines[pos + k] == #[trigger] all_lines(rs)[k],
        forall|k: int| 0 <= k < rs.len() ==> prec_bounded(#[trigger] rs[k]),
    ensures
        parse_recs_at(lines, pos) == Some(rs),
    decreases rs.len(),
{
    if rs.len() == 0 {
        assert(pos == lines.len());
    } else {
        let r = rs[0];
        let n = rec_lines(r).len() as int;
        assert(all_lines(rs) == rec_lines(r) + all_lines(rs.skip(1)));
        assert forall|k: int|
            0 <= k < rec_lines(r).len() implies lines[pos + k] == #[trigger] rec_lines(r)[k] by {
            assert(all_lines(rs)[k] == rec_lines(r)[k]);
        }
        lemma_parse_rec_inv(lines, pos, r);
        assert(n >= 10);
        assert forall|k: int|
            0 <= k < all_lines(rs.skip(1)).len() implies lines[pos + n + k] == #[trigger] all_lines(
            rs.skip(1),
        )[k] by {
            assert(all_lines(rs)[n + k] == all_lines(rs.skip(1))[k]);
        }
        assert forall|k: int| 0 <= k < rs.skip(1).len() implies prec_bounded(
            #[trigger] rs.skip(1)[k],
        ) by {
            assert(rs.skip(1)[k] == rs[k + 1]);
        }
        lemma_parse_recs_inv(lines, pos + n, rs.skip(1));
        assert(seq![r] + rs.skip(1) =~= rs);
    }
}

/// Round trip: the rendered snapshot of any in-range records reads back
/// as exactly those records.
pub proof fn lemma_parse_render(rs: Seq<PRec>)
    requires
        forall|k: int| 0 <= k < rs.len() ==> prec_bounded(#[trigger] rs[k]),
    ensures
        parse_file(render_file(rs)) == Some(rs),
{
    lemma_all_lines_no_nl(rs);
    lemma_split_join(all_lines(rs));
    lemma_parse_recs_inv(all_lines(rs), 0, rs);
}

/// The spans of the lines of `s`, in order: each span cut out of `s` is
/// the corresponding line of `split_lines`.
fn line_spans(s: &str) -> (r: Vec<(usize, usize)>)
    ensures
        r@.len() == split_lines(s@).len(),
        forall|k: int|
            0 <= k < r@.len() ==> {
                let sp = #[trigger] r@[k];
                &&& sp.0 <= sp.1 <= s@.len()
                &&& s@.subrange(sp.0 as int, sp.1 as int) == split_lines(s@)[k]
            },
{
    let n = s.unicode_len();
    let mut out: Vec<(usize, usize)> = Vec::new();
    let mut start: usize = 0;
    let mut i: usize = 0;
    proof {
        assert(s@.skip(0) =~= s@);
        assert(spans_lines(out@, s@) =~= Seq::<Seq<char>>::empty());
        assert(spans_lines(out@, s@) + split_lines(s@) =~= split_lines(s@));
    }
    while i < n
        invariant
            n == s@.len(),
            start <= i <= n,
            forall|k: int| start <= k < i ==> s@[k] != '\n',
            split_lines(s@) == spans_lines(out@, s@) + split_lines(s@.skip(start as int)),
            forall|k: int|
                0 <= k < out@.len() ==> {
                    let sp = #[trigger] out@[k];
                    sp.0 <= sp.1 <= s@.len()
                },
        decreases n - i,
    {
        let c = s.get_char(i);
        if c == '\n' {
            let ghost line = s@.subrange(start as int, i as int);
            let ghost rest = s@.skip(i as int + 1);
            proof {
                assert forall|k: int| 0 <= k < line.len() implies line[k] != '\n' by {
                    assert(line[k] == s@[start + k]);
                }
                assert(!contains_char(line, '\n'));
                assert(s@.skip(start as int) =~= line + seq!['\n'] + rest);
                lemma_first_nl_concat(line, rest);
                let t = s@.skip(start as int);
                assert(first_nl(t) == line.len());
                assert(t.len() > 0);
                assert(t.take(line.len() as int) =~= line);
                assert(t.skip(line.len() as int + 1) =~= rest);
                assert(split_lines(t) == seq![line] + split_lines(rest));
                lemma_spans_lines_snoc(out@, s@, (start, i));
                assert(spans_lines(out@.push((start, i)), s@) + split_lines(rest)
                    =~= spans_lines(out@, s@) + (seq![line] + split_lines(rest)));
            }
            out.push((start, i));
            start = i + 1;
        }
        i = i + 1;
    }
    if start < n {
        let ghost line = s@.subrange(start as int, n as int);
        proof {
            let t = s@.skip(start as int);
            assert(t =~= line);
            assert forall|k: int| 0 <= k < t.len() implies t[k] != '\n' by {
                assert(t[k] == s@[start + k]);
            }
            lemma_first_nl_range(t);
            if first_nl(t) >= 0 {
                assert(t[first_nl(t)] == '\n');
            }
            assert(first_nl(t) < 0);
            assert(split_lines(t) == seq![t]);
            lemma_spans_lines_snoc(out@, s@, (start, n));
            assert(spans_lines(out@.push((start, n)), s@) =~= spans_lines(out@, s@) + seq![line]);
            assert(spans_lines(out@, s@) + (seq![line] + Seq::<Seq<char>>::empty())
                =~= spans_lines(out@, s@) + seq![line]);
            assert(split_lines(s@) =~= spans_lines(out@.push((start, n)), s@));
        }
        out.push((start, n));
    } else {
        proof {
            assert(s@.skip(start as int) =~= Seq::<char>::empty());
            assert(split_lines(Seq::<char>::empty()) =~= Seq::<Seq<char>>::empty());
            assert(split_lines(s@) =~= spans_lines(out@, s@));
        }
    }
    proof {
        lemma_spans_lines_index(out@, s@);
    }
    out
}

/// The lines that a list of spans cuts out of `s`.
pub open spec fn spans_lines(spans: Seq<(usize, usize)>, s: Seq<char>) -> Seq<Seq<char>> {
    Seq::new(spans.len(), |k: int| s.subrange(spans[k].0 as int, spans[k].1 as int))
}

proof fn lemma_spans_lines_snoc(spans: Seq<(usize, usize)>, s: Seq<char>, sp: (usize, usize))
    ensures
        spans_lines(spans.push(sp), s) == spans_lines(spans, s).push(
            s.subrange(sp.0 as int, sp.1 as int),
        ),
{
    assert(spans_lines(spans.push(sp), s) =~= spans_lines(spans, s).push(
        s.subrange(sp.0 as int, sp.1 as int),
    ));
}

proof fn lemma_spans_lines_index(spans: Seq<(usize, usize)>, s: Seq<char>)
    ensures
        forall|k: int|
            0 <= k < spans.len() ==> spans_lines(spans, s)[k] == s.subrange(
                (#[trigger] spans[k]).0 as int,
                spans[k].1 as int,
            ),
{
}

/// True when the span of `s` opens with the characters of `key`.
fn match_key(s: &str, start: usize, end: usize, key: &str) -> (r: bool)
    requires
        start <= end <= s@.len(),
    ensures
        r == starts_key(s@.subrange(start as int, end as int), key@),
{
    let ghost line = s@.subrange(start as int, end as int);
    let klen = key.unicode_len();
    if end - start < klen {
        return false;
    }
    let mut j: usize = 0;
    while j < klen
        invariant
            start <= end <= s@.len(),
            line == s@.subrange(start as int, end as int),
            klen == key@.len(),
            klen <= end - start,
            j <= klen,
            forall|k: int| 0 <= k < j ==> line[k] == key@[k],
        decreases klen - j,
    {
        let a = s.get_char(start + j);
        let b = key.get_char(j);
        proof {
            assert(line[j as int] == s@[start + j]);
        }
        if a != b {
            proof {
                if starts_key(line, key@) {
                    assert(line.take(key@.len() as int)[j as int] == key@[j as int]);
                    assert(line[j as int] == key@[j as int]);
                }
            }
            return false;
        }
        j = j + 1;
    }
    proof {
        assert(line.take(key@.len() as int) =~= key@);
    }
    true
}

/// Reads the unsigned value of a `key = n` span.
fn parse_u32_span(s: &str, start: usize, end: usize, key: &str, klen: usize) -> (r: Option<u32>)
    requires
        start <= end <= s@.len(),
        klen == key@.len(),
    ensures
        r == parse_u32_line(s@.subrange(start as int, end as int), key@),
{
    let ghost line = s@.subrange(start as int, end as int);
    if !match_key(s, start, end, key) {
        return None;
    }
    let vs = start + klen;
    proof {
        assert(line.skip(klen as int) =~= s@.subrange(vs as int, end as int));
    }
    match parse_u64_range(s, vs, end) {
        Some(v) => {
            if v <= 0xFFFF_FFFFu64 {
                Some(v as u32)
            } else {
                None
            }
        },
        None => None,
    }
}

/// Reads the signed value of a `key = n` span, within `[lo, hi]`.
fn parse_int_span(s: &str, start: usize, end: usize, key: &str, klen: usize, lo: i64, hi: i64) -> (r:
    Option<i64>)
    requires
        start <= end <= s@.len(),
        klen == key@.len(),
        lo <= 0 <= hi,
        hi as int <= u64::MAX / 2,
        -(u64::MAX / 2) <= lo as int,
    ensures
        match r {
            Some(v) => parse_int_line(
                s@.subrange(start as int, end as int),
                key@,
                lo as int,
                hi as int,
            ) == Some(v as int),
            None => parse_int_line(
                s@.subrange(start as int, end as int),
                key@,
                lo as int,
                hi as int,
            ) is None,
        },
{
    let ghost line = s@.subrange(start as int, end as int);
    if !match_key(s, start, end, key) {
        return None;
    }
    let ghost vseq = line.skip(klen as int);
    proof {
        assert(vseq =~= s@.subrange(start + klen, end as int));
    }
    let mut vs = start + klen;
    let mut neg = false;
    if vs < end {
        let c = s.get_char(vs);
        proof {
            assert(vseq[0] == s@[vs as int]);
        }
        if c == '-' {
            neg = true;
            vs = vs + 1;
        }
    }
    let ghost dseq = s@.subrange(vs as int, end as int);
    proof {
        if neg {
            assert(dseq =~= vseq.skip(1));
        } else {
            assert(dseq =~= vseq);
        }
    }
    match parse_u64_range(s, vs, end) {
        Some(v) => {
            proof {
                lemma_dec_val_nonneg(dseq);
                if !neg && vseq.len() >= 1 && vseq[0] == '-' {
                    assert(false);
                }
            }
            let signed: i64 = if neg {
                -(v as i64)
            } else {
                v as i64
            };
            if lo <= signed && signed <= hi {
                proof {
                    if neg {
                        assert(vseq[0] == '-');
                        assert(vseq.len() >= 2);
                        assert(is_sdec(vseq));
                        assert(sdec_val(vseq) == -dec_val(dseq));
                    } else {
                        assert(is_sdec(vseq));
                        assert(sdec_val(vseq) == dec_val(dseq));
                    }
                }
                Some(signed)
            } else {
                None
            }
        },
        None => {
            proof {
                lemma_dec_val_nonneg(dseq);
                if parse_int_line(line, key@, lo as int, hi as int) is Some {
                    assert(is_sdec(vseq));
                    assert(lo as int <= sdec_val(vseq) <= hi as int);
                    if neg {
                        assert(all_digits(vseq.skip(1)));
                        assert(dseq.len() >= 1);
                        assert(sdec_val(vseq) == -dec_val(dseq));
                        assert(dec_val(dseq) <= -(lo as int));
                        assert(dec_val(dseq) <= u64::MAX / 2);
                    } else {
                        assert(vseq.len() >= 1);
                        assert(all_digits(vseq));
                        assert(vseq[0] != '-' || !crate::digits::is_digit(vseq[0]));
                        assert(sdec_val(vseq) == dec_val(dseq));
                        assert(dec_val(dseq) <= hi as int);
                        assert(dec_val(dseq) <= u64::MAX / 2);
                    }
                    assert(false);
                }
            }
            None
        },
    }
}

/// Reads the quoted value of a `key = "..."` span.
fn parse_q_span(s: &str, start: usize, end: usize, key: &str, klen: usize) -> (r: Option<String>)
    requires
        start <= end <= s@.len(),
        klen == key@.len(),
    ensures
        match r {
            Some(v) => parse_q_line(s@.subrange(start as int, end as int), key@) == Some(v@),
            None => parse_q_line(s@.subrange(start as int, end as int), key@) is None,
        },
{
    let ghost line = s@.subrange(start as int, end as int);
    if !match_key(s, start, end, key) {
        return None;
    }
    if end - start - klen < 2 {
        return None;
    }
    let q1 = s.get_char(start + klen);
    proof {
        assert(line[klen as int] == s@[start + klen]);
    }
    if q1 != '"' {
        return None;
    }
    let q2 = s.get_char(end - 1);
    proof {
        assert(line.last() == s@[end - 1]);
    }
    if q2 != '"' {
        return None;
    }
    proof {
        assert(line.subrange(klen as int + 1, line.len() - 1) =~= s@.subrange(
            start + klen + 1,
            end - 1,
        ));
    }
    unescape_range(s, start + klen + 1, end - 1)
}

/// Reads the value of a `key = true` or `key = false` span.
fn parse_bool_span(s: &str, start: usize, end: usize, key: &str, klen: usize) -> (r: Option<bool>)
    requires
        start <= end <= s@.len(),
        klen == key@.len(),
    ensures
        r == parse_bool_line(s@.subrange(start as int, end as int), key@),
{
    let ghost line = s@.subrange(start as int, end as int);
    if !match_key(s, start, end, key) {
        return None;
    }
    let ghost vseq = line.skip(klen as int);
    let vs = start + klen;
    proof {
        assert(vseq =~= s@.subrange(vs as int, end as int));
        assert forall|k: int| 0 <= k < vseq.len() implies vseq[k] == s@[vs + k] by {}
    }
    let m = end - vs;
    if m == 4 {
        if s.get_char(vs) == 't' && s.get_char(vs + 1) == 'r' && s.get_char(vs + 2) == 'u'
            && s.get_char(vs + 3) == 'e' {
            proof {
                assert(vseq =~= bool_str(true));
            }
            return Some(true);
        }
        proof {
            assert(vseq != bool_str(true));
            assert(vseq.len() != bool_str(false).len());
        }
        return None;
    }
    if m == 5 {
        if s.get_char(vs) == 'f' && s.get_char(vs + 1) == 'a' && s.get_char(vs + 2) == 'l'
            && s.get_char(vs + 3) == 's' && s.get_char(vs + 4) == 'e' {
            proof {
                assert(vseq =~= bool_str(false));
            }
            return Some(false);
        }
        proof {
            assert(vseq != bool_str(false));
            assert(vseq.len() != bool_str(true).len());
        }
        return None;
    }
    proof {
        assert(vseq.len() != bool_str(true).len());
        assert(vseq.len() != bool_str(false).len());
    }
    None
}

/// True when the span is exactly the block header line.
fn is_header_span(s: &str, start: usize, end: usize) -> (r: bool)
    requires
        start <= end <= s@.len(),
    ensures
        r == (s@.subrange(start as int, end as int) == header_line()),
{
    let ghost line = s@.subrange(start as int, end as int);
    if end - start != 8 {
        proof {
            assert(header_line().len() == 8);
            assert(line.len() == end - start);
        }
        return false;
    }
    proof {
        assert forall|k: int| 0 <= k < 8 implies line[k] == s@[start + k] by {}
    }
    if s.get_char(start) != '[' {
        proof {
            assert(line[0] != header_line()[0]);
        }
        return false;
    }
    if s.get_char(start + 1) != '[' {
        proof {
            assert(line[1] != header_line()[1]);
        }
        return false;
    }
    if s.get_char(start + 2) != 'n' {
        proof {
            assert(line[2] != header_line()[2]);
        }
        return false;
    }
    if s.get_char(start + 3) != 'p' {
        proof {
            assert(line[3] != header_line()[3]);
        }
        return false;
    }
    if s.get_char(start + 4) != 'c' {
        proof {
            assert(line[4] != header_line()[4]);
        }
        return false;
    }
    if s.get_char(start + 5) != 's' {
        proof {
            assert(line[5] != header_line()[5]);
        }
        return false;
    }
    if s.get_char(start + 6) != ']' {
        proof {
            assert(line[6] != header_line()[6]);
        }
        return false;
    }
    if s.get_char(start + 7) != ']' {
        proof {
            assert(line[7] != header_line()[7]);
        }
        return false;
    }
    proof {
        assert(line =~= header_line());
    }
    true
}

/// The spans describe the lines of `s`.
pub open spec fn spans_ok(spans: Seq<(usize, usize)>, s: Seq<char>) -> bool {
    &&& spans.len() == split_lines(s).len()
    &&& forall|k: int|
        0 <= k < spans.len() ==> {
            let sp = #[trigger] spans[k];
            &&& sp.0 <= sp.1 <= s.len()
            &&& s.subrange(sp.0 as int, sp.1 as int) == split_lines(s)[k]
        }
}

/// The span at `k` cuts out exactly line `k`.
proof fn lemma_span_line(spans: Seq<(usize, usize)>, s: Seq<char>, k: int)
    requires
        spans_ok(spans, s),
        0 <= k < spans.len(),
    ensures
        spans[k].0 <= spans[k].1 <= s.len(),
        s.subrange(spans[k].0 as int, spans[k].1 as int) == split_lines(s)[k],
{
}

/// Reads one record block starting at line `pos`, mirroring
/// `parse_rec_at` and building the in-memory record with zeroed runtime
/// fields.
#[verifier::rlimit(100)]
#[verifier::spinoff_prover]
#[verifier::loop_isolation(false)]
fn parse_rec_span(s: &str, spans: &Vec<(usize, usize)>, pos: usize) -> (r: Option<(Npc, usize)>)
    requires
        spans_ok(spans@, s@),
        pos <= spans@.len(),
    ensures
        match r {
            Some(p) => {
                &&& parse_rec_at(split_lines(s@), pos as int) == Some((prec_of(p.0), p.1 as int))
                &&& pos < p.1 <= spans@.len()
                &&& p.0.uuid == 0
                &&& p.0.entity_id == 0
                &&& p.0.location.wf()
            },
            None => parse_rec_at(split_lines(s@), pos as int) is None,
        },
{
    let ghost lines = split_lines(s@);
    if spans.len() - pos < 9 {
        return None;
    }
    let sp0 = spans[pos];
    proof {
        lemma_span_line(spans@, s@, pos as int);
    }
    if !is_header_span(s, sp0.0, sp0.1) {
        return None;
    }
    proof {
        reveal_strlit("id = ");
        assert(("id = ")@ =~= key_id());
        reveal_strlit("name = ");
        assert(("name = ")@ =~= key_name());
        reveal_strlit("x = ");
        assert(("x = ")@ =~= key_x());
        reveal_strlit("y = ");
        assert(("y = ")@ =~= key_y());
        reveal_strlit("z = ");
        assert(("z = ")@ =~= key_z());
        reveal_strlit("yaw = ");
        assert(("yaw = ")@ =~= key_yaw());
        reveal_strlit("pitch = ");
        assert(("pitch = ")@ =~= key_pitch());
        reveal_strlit("look_at_nearest = ");
        assert(("look_at_nearest = ")@ =~= key_look());
    }
    let sp = spans[pos + 1];
    proof {
        lemma_span_line(spans@, s@, pos as int + 1);
    }
    let idv = match parse_u32_span(s, sp.0, sp.1, "id = ", 5) {
        Some(v) => v,
        None => {
            return None;
        },
    };
    let sp = spans[pos + 2];
    proof {
        lemma_span_line(spans@, s@, pos as int + 2);
    }
    let name = match parse_q_span(s, sp.0, sp.1, "name = ", 7) {
        Some(v) => v,
        None => {
            return None;
        },
    };
    let sp = spans[pos + 3];
    proof {
        lemma_span_line(spans@, s@, pos as int + 3);
    }
    let xv = match parse_int_span(s, sp.0, sp.1, "x = ", 4, -COORD_LIMIT, COORD_LIMIT) {
        Some(v) => v,
        None => {
            return None;
        },
    };
    let sp = spans[pos + 4];
    proof {
        lemma_span_line(spans@, s@, pos as int + 4);
    }
    let yv = match parse_int_span(s, sp.0, sp.1, "y = ", 4, -COORD_LIMIT, COORD_LIMIT) {
        Some(v) => v,
        None => {
            return None;
        },
    };
    let sp = spans[pos + 5];
    proof {
        lemma_span_line(spans@, s@, pos as int + 5);
    }
    let zv = match parse_int_span(s, sp.0, sp.1, "z = ", 4, -COORD_LIMIT, COORD_LIMIT) {
        Some(v) => v,
        None => {
            return None;
        },
    };
    let sp = spans[pos + 6];
    proof {
        lemma_span_line(spans@, s@, pos as int + 6);
    }
    let yawv = match parse_int_span(
        s,
        sp.0,
        sp.1,
        "yaw = ",
        6,
        -2147483648i64,
        2147483647i64,
    ) {
        Some(v) => v,
        None => {
            return None;
        },
    };
    let sp = spans[pos + 7];
    proof {
        lemma_span_line(spans@, s@, pos as int + 7);
    }
    let pitchv = match parse_int_span(
        s,
        sp.0,
        sp.1,
        "pitch = ",
        8,
        -2147483648i64,
        2147483647i64,
    ) {
        Some(v) => v,
        None => {
            return None;
        },
    };
    let sp = spans[pos + 8];
    proof {
        lemma_span_line(spans@, s@, pos as int + 8);
    }
    let lookv = match parse_bool_span(s, sp.0, sp.1, "look_at_nearest = ", 18) {
        Some(v) => v,
        None => {
            return None;
        },
    };
    // optional skin pair
    proof {
        reveal_strlit("skin_textures = ");
        assert(("skin_textures = ")@ =~= key_tex());
        reveal_strlit("skin_signature = ");
        assert(("skin_signature = ")@ =~= key_sig());
    }
    let p0 = pos + 9;
    let mut p: usize = p0;
    let mut skin: Option<NpcSkin> = None;
    if p0 < spans.len() {
        let sp = spans[p0];
        proof {
            lemma_span_line(spans@, s@, p0 as int);
        }
        if match_key(s, sp.0, sp.1, "skin_textures = ") {
            if p0 + 1 >= spans.len() {
                proof {
                    assert(skin_step_at(lines, p0 as int) is None);
                }
                return None;
            }
            let tex = match parse_q_span(s, sp.0, sp.1, "skin_textures = ", 16) {
                Some(v) => v,
                None => {
                    proof {
                        assert(skin_step_at(lines, p0 as int) is None);
                    }
                    return None;
                },
            };
            let sp2 = spans[p0 + 1];
            proof {
                lemma_span_line(spans@, s@, p0 as int + 1);
            }
            let sig = match parse_q_span(s, sp2.0, sp2.1, "skin_signature = ", 17) {
                Some(v) => v,
                None => {
                    proof {
                        assert(skin_step_at(lines, p0 as int) is None);
                    }
                    return None;
                },
            };
            proof {
                assert(skin_step_at(lines, p0 as int) == Some(
                    (Some((tex@, sig@)), p0 as int + 2),
                ));
            }
            skin = Some(NpcSkin { textures: tex, signature: sig });
            p = p0 + 2;
        }
    }
    let ghost sk_view: Option<(Seq<char>, Seq<char>)> = if skin is Some {
        Some((skin->Some_0.textures@, skin->Some_0.signature@))
    } else {
        None
    };
    proof {
        assert(skin_step_at(lines, p0 as int) == Some((sk_view, p as int)));
    }
    // labels
    proof {
        reveal_strlit("hologram = ");
        assert(("hologram = ")@ =~= key_holo());
    }
    let ghost lp = p as int;
    let mut holograms: Vec<HologramLine> = Vec::new();
    proof {
        assert(holo_texts(holograms@) =~= Seq::<Seq<char>>::empty());
        assert forall|q0: Seq<Seq<char>>| holo_texts(holograms@) + q0 =~= q0 by {}
    }
    let mut scanning = true;
    while scanning
        invariant
            lp <= p <= spans@.len(),
            parse_labels_at(lines, lp) == (match parse_labels_at(lines, p as int) {
                Some(q) => Some((holo_texts(holograms@) + q.0, q.1)),
                None => None::<(Seq<Seq<char>>, int)>,
            }),
            forall|k: int|
                0 <= k < holograms@.len() ==> (#[trigger] holograms@[k]).entity_id == 0,
            !scanning ==> parse_labels_at(lines, lp) == Some(
                (holo_texts(holograms@), p as int),
            ),
        decreases spans@.len() - p + (if scanning {
            1int
        } else {
            0int
        }),
    {
        if p >= spans.len() {
            proof {
                assert(parse_labels_at(lines, p as int) == Some((
                    Seq::<Seq<char>>::empty(),
                    p as int,
                )));
                assert(holo_texts(holograms@) + Seq::<Seq<char>>::empty() =~= holo_texts(
                    holograms@,
                ));
            }
            scanning = false;
            continue ;
        }
        let sp = spans[p];
        proof {
            lemma_span_line(spans@, s@, p as int);
        }
        if !match_key(s, sp.0, sp.1, "hologram = ") {
            proof {
                assert(!starts_key(lines[p as int], key_holo()));
                assert(parse_labels_at(lines, p as int) == Some((
                    Seq::<Seq<char>>::empty(),
                    p as int,
                )));
                assert(holo_texts(holograms@) + Seq::<Seq<char>>::empty() =~= holo_texts(
                    holograms@,
                ));
            }
            scanning = false;
            continue ;
        }
        let text = match parse_q_span(s, sp.0, sp.1, "hologram = ", 11) {
            Some(v) => v,
            None => {
                proof {
                    assert(parse_labels_at(lines, p as int) is None);
                    assert(parse_labels_at(lines, lp) is None);
                    assert(skin_step_at(lines, p0 as int) == Some((sk_view, lp)));
                    assert(parse_rec_at(lines, pos as int) is None);
                }
                return None;
            },
        };
        let ghost before = holograms@;
        holograms.push(HologramLine { text, entity_id: 0 });
        proof {
            assert(holo_texts(holograms@) =~= holo_texts(before).push(
                holograms@.last().text@,
            ));
            assert(parse_labels_at(lines, p as int) == (match parse_labels_at(
                lines,
                p as int + 1,
            ) {
                Some(q) => Some((seq![holograms@.last().text@] + q.0, q.1)),
                None => None::<(Seq<Seq<char>>, int)>,
            }));
            assert forall|q0: Seq<Seq<char>>|
                holo_texts(before) + (seq![holograms@.last().text@] + q0) =~= holo_texts(
                    holograms@,
                ) + q0 by {}
        }
        p = p + 1;
    }
    // optional server link
    proof {
        reveal_strlit("server = ");
        assert(("server = ")@ =~= key_server());
    }
    let mut server: Option<String> = None;
    let mut p3: usize = p;
    if p < spans.len() {
        let sp = spans[p];
        proof {
            lemma_span_line(spans@, s@, p as int);
        }
        if match_key(s, sp.0, sp.1, "server = ") {
            let v = match parse_q_span(s, sp.0, sp.1, "server = ", 9) {
                Some(v) => v,
                None => {
                    proof {
                        assert(server_step_at(lines, p as int) is None);
                        assert(parse_rec_at(lines, pos as int) is None);
                    }
                    return None;
                },
            };
            server = Some(v);
            p3 = p + 1;
        }
    }
    let ghost sv_view: Option<Seq<char>> = if server is Some {
        Some(server->Some_0@)
    } else {
        None
    };
    proof {
        assert(server_step_at(lines, p as int) == Some((sv_view, p3 as int)));
    }
    // blank separator line
    if p3 >= spans.len() {
        proof {
            assert(parse_rec_at(lines, pos as int) is None);
        }
        return None;
    }
    let spb = spans[p3];
    proof {
        lemma_span_line(spans@, s@, p3 as int);
    }
    if spb.1 - spb.0 != 0 {
        proof {
            assert(lines[p3 as int].len() == spb.1 - spb.0);
            assert(parse_rec_at(lines, pos as int) is None);
        }
        return None;
    }
    proof {
        assert(lines[p3 as int].len() == 0);
    }
    let npc = Npc {
        id: idv,
        name,
        uuid: 0,
        entity_id: 0,
        location: NpcLocation { x: xv, y: yv, z: zv, yaw: yawv as i32, pitch: pitchv as i32 },
        skin,
        look_at_nearest: lookv,
        holograms,
        server,
    };
    proof {
        let spec_r = parse_rec_at(lines, pos as int);
        assert(spec_r is Some);
        let pr = prec_of(npc);
        assert(pr.labels =~= holo_texts(npc.holograms@));
        assert(spec_r->Some_0.0 == pr);
    }
    Some((npc, p3 + 1))
}

/// The texts of a vector of label lines, in order.
pub open spec fn holo_texts(hs: Seq<HologramLine>) -> Seq<Seq<char>> {
    Seq::new(hs.len(), |k: int| hs[k].text@)
}

/// Reads a whole snapshot. `Some` holds the records of a well-formed file,
/// with zeroed runtime fields; `None` means the file is malformed.
pub fn parse_npcs(s: &str) -> (r: Option<Vec<Npc>>)
    ensures
        match r {
            Some(v) => {
                &&& parse_file(s@) == Some(precs_of(v@))
                &&& forall|k: int|
                    0 <= k < v@.len() ==> {
                        let n = #[trigger] v@[k];
                        &&& n.uuid == 0
                        &&& n.entity_id == 0
                        &&& n.location.wf()
                    }
            },
            None => parse_file(s@) is None,
        },
{
    let ghost lines = split_lines(s@);
    let spans = line_spans(s);
    let mut out: Vec<Npc> = Vec::new();
    let mut pos: usize = 0;
    proof {
        assert(spans_ok(spans@, s@));
        assert(precs_of(out@) =~= Seq::<PRec>::empty());
        assert forall|rest: Seq<PRec>| precs_of(out@) + rest =~= rest by {}
    }
    while pos < spans.len()
        invariant
            spans_ok(spans@, s@),
            lines == split_lines(s@),
            pos <= spans@.len(),
            parse_recs_at(lines, 0) == (match parse_recs_at(lines, pos as int) {
                Some(rest) => Some(precs_of(out@) + rest),
                None => None::<Seq<PRec>>,
            }),
            forall|k: int|
                0 <= k < out@.len() ==> {
                    let n = #[trigger] out@[k];
                    &&& n.uuid == 0
                    &&& n.entity_id == 0
                    &&& n.location.wf()
                },
        decreases spans@.len() - pos,
    {
        match parse_rec_span(s, &spans, pos) {
            Some(pair) => {
                let (npc, next) = pair;
                let ghost before = out@;
                out.push(npc);
                proof {
                    assert(parse_recs_at(lines, pos as int) == (match parse_recs_at(
                        lines,
                        next as int,
                    ) {
                        Some(rest) => Some(seq![prec_of(npc)] + rest),
                        None => None::<Seq<PRec>>,
                    }));
                    assert(precs_of(out@) =~= precs_of(before).push(prec_of(npc)));
                    assert forall|rest: Seq<PRec>|
                        precs_of(before) + (seq![prec_of(npc)] + rest) =~= precs_of(out@)
                            + rest by {}
                }
                pos = next;
            },
            None => {
                proof {
                    assert(parse_recs_at(lines, pos as int) is None);
                }
                return None;
            },
        }
    }
    proof {
        assert(parse_recs_at(lines, pos as int) == Some(Seq::<PRec>::empty()));
        assert(precs_of(out@) + Seq::<PRec>::empty() =~= precs_of(out@));
    }
    Some(out)
}

/// Every line of every rendered block is newline-free.
proof fn lemma_all_lines_no_nl(rs: Seq<PRec>)
    ensures
        forall|k: int|
            0 <= k < all_lines(rs).len() ==> !contains_char(#[trigger] all_lines(rs)[k], '\n'),
    decreases rs.len(),
{
    if rs.len() > 0 {
        lemma_rec_lines_no_nl(rs[0]);
        lemma_all_lines_no_nl(rs.skip(1));
        let n = rec_lines(rs[0]).len() as int;
        assert forall|k: int|
            0 <= k < all_lines(rs).len() implies !contains_char(
            #[trigger] all_lines(rs)[k],
            '\n',
        ) by {
            if k < n {
                assert(all_lines(rs)[k] == rec_lines(rs[0])[k]);
            } else {
                assert(all_lines(rs)[k] == all_lines(rs.skip(1))[k - n]);
            }
        }
    }
}

/// One more record appends its block's lines.
pub proof fn lemma_all_lines_snoc(rs: Seq<PRec>, r: PRec)
    ensures
        all_lines(rs.push(r)) == all_lines(rs) + rec_lines(r),
    decreases rs.len(),
{
    if rs.len() == 0 {
        assert(rs.push(r) =~= seq![r]);
        assert(seq![r].skip(1) =~= Seq::<PRec>::empty());
        assert(all_lines(seq![r]) == rec_lines(r) + all_lines(seq![r].skip(1)));
        assert(rec_lines(r) + Seq::<Seq<char>>::empty() =~= rec_lines(r));
        assert(all_lines(rs) + rec_lines(r) =~= rec_lines(r));
    } else {
        lemma_all_lines_snoc(rs.skip(1), r);
        assert(rs.push(r).skip(1) =~= rs.skip(1).push(r));
        assert(rs.push(r)[0] == rs[0]);
        assert(all_lines(rs.push(r)) == rec_lines(rs[0]) + (all_lines(rs.skip(1)) + rec_lines(r)));
        assert(rec_lines(rs[0]) + (all_lines(rs.skip(1)) + rec_lines(r)) =~= (rec_lines(rs[0])
            + all_lines(rs.skip(1))) + rec_lines(r));
    }
}


/// The key of a server block's address line.
pub open spec fn key_addr() -> Seq<char> {
    seq!['a', 'd', 'd', 'r', 'e', 's', 's', ' ', '=', ' ']
}

/// The lines of one registered server's block: the name in brackets, the
/// quoted address, a blank separator.
pub open spec fn server_block_lines(name: Seq<char>, addr_text: Seq<char>) -> Seq<Seq<char>> {
    seq![
        seq!['['] + escape_spec(name) + seq![']'],
        qline(key_addr(), addr_text),
        Seq::<char>::empty(),
    ]
}

/// The lines of the servers snapshot: one block per server, in order. An
/// entry is a name and its rendered address text.
pub open spec fn servers_lines(entries: Seq<(Seq<char>, Seq<char>)>) -> Seq<Seq<char>>
    decreases entries.len(),
{
    if entries.len() == 0 {
        Seq::empty()
    } else {
        server_block_lines(entries[0].0, entries[0].1) + servers_lines(entries.skip(1))
    }
}

/// The rendered servers snapshot.
pub open spec fn render_servers_file(entries: Seq<(Seq<char>, Seq<char>)>) -> Seq<char> {
    join_nl(servers_lines(entries))
}

/// Reads one server block at line `pos`: a bracketed escaped name, the
/// quoted address text, and a blank line.
pub open spec fn parse_server_at(lines: Seq<Seq<char>>, pos: int) -> Option<
    ((Seq<char>, Seq<char>), int),
> {
    if 0 <= pos && pos + 3 <= lines.len() {
        let nl = lines[pos];
        if nl.len() >= 2 && nl[0] == '[' && nl.last() == ']' {
            match unescape_spec(nl.subrange(1, nl.len() - 1)) {
                Some(name) => match parse_q_line(lines[pos + 1], key_addr()) {
                    Some(text) => if (exists|ad: ServerAddress| text == #[trigger] render_address(ad))
                        && lines[pos + 2].len() == 0 {
                        Some(((name, text), pos + 3))
                    } else {
                        None
                    },
                    None => None,
                },
                None => None,
            }
        } else {
            None
        }
    } else {
        None
    }
}

/// Reads server blocks until the lines run out.
pub open spec fn parse_servers_at(lines: Seq<Seq<char>>, pos: int) -> Option<
    Seq<(Seq<char>, Seq<char>)>,
>
    decreases lines.len() - pos when 0 <= pos <= lines.len()
{
    if pos == lines.len() {
        Some(Seq::empty())
    } else {
        match parse_server_at(lines, pos) {
            Some(p) => if pos < p.1 <= lines.len() {
                match parse_servers_at(lines, p.1) {
                    Some(rest) => Some(seq![p.0] + rest),
                    None => None,
                }
            } else {
                None
            },
            None => None,
        }
    }
}

/// The entries a servers snapshot holds, or `None` when it is malformed.
pub open spec fn parse_servers_file(s: Seq<char>) -> Option<Seq<(Seq<char>, Seq<char>)>> {
    parse_servers_at(split_lines(s), 0)
}

/// A rendered server block reads back as its entry.
proof fn lemma_parse_server_inv(lines: Seq<Seq<char>>, pos: int, name: Seq<char>, text: Seq<char>)
    requires
        0 <= pos,
        pos + 3 <= lines.len(),
        lines[pos] == server_block_lines(name, text)[0],
        lines[pos + 1] == server_block_lines(name, text)[1],
        lines[pos + 2] == server_block_lines(name, text)[2],
        exists|ad: ServerAddress| text == #[trigger] render_address(ad),
    ensures
        parse_server_at(lines, pos) == Some(((name, text), pos + 3)),
{
    let nl = lines[pos];
    assert(nl == seq!['['] + escape_spec(name) + seq![']']);
    assert(nl.len() >= 2);
    assert(nl[0] == '[');
    assert(nl.last() == ']');
    assert(nl.subrange(1, nl.len() - 1) =~= escape_spec(name));
    lemma_unescape_escape(name);
    lemma_parse_q_inv(key_addr(), text);
    assert(lines[pos + 2].len() == 0);
}

/// A rendered sequence of server blocks reads back as the entries.
proof fn lemma_parse_servers_inv(
    lines: Seq<Seq<char>>,
    pos: int,
    entries: Seq<(Seq<char>, Seq<char>)>,
)
    requires
        0 <= pos <= lines.len(),
        pos + servers_lines(entries).len() == lines.len(),
        forall|k: int|
            0 <= k < servers_lines(entries).len() ==> lines[pos + k] == #[trigger] servers_lines(
                entries,
            )[k],
        forall|k: int|
            0 <= k < entries.len() ==> exists|ad: ServerAddress| (#[trigger] entries[k]).1
                == render_address(ad),
    ensures
        parse_servers_at(lines, pos) == Some(entries),
    decreases entries.len(),
{
    if entries.len() == 0 {
        assert(pos == lines.len());
    } else {
        let e = entries[0];
        let block = server_block_lines(e.0, e.1);
        assert(servers_lines(entries) == block + servers_lines(entries.skip(1)));
        assert(servers_lines(entries)[0] == block[0]);
        assert(servers_lines(entries)[1] == block[1]);
        assert(servers_lines(entries)[2] == block[2]);
        lemma_parse_server_inv(lines, pos, e.0, e.1);
        assert forall|k: int|
            0 <= k < servers_lines(entries.skip(1)).len() implies lines[pos + 3 + k]
            == #[trigger] servers_lines(entries.skip(1))[k] by {
            assert(servers_lines(entries)[3 + k] == servers_lines(entries.skip(1))[k]);
        }
        assert forall|k: int|
            0 <= k < entries.skip(1).len() implies exists|ad: ServerAddress| (
        #[trigger] entries.skip(1)[k]).1 == render_address(ad) by {
            assert(entries.skip(1)[k] == entries[k + 1]);
        }
        lemma_parse_servers_inv(lines, pos + 3, entries.skip(1));
        assert(seq![e] + entries.skip(1) =~= entries);
    }
}

/// Round trip: the rendered servers snapshot reads back as exactly its
/// entries.
pub proof fn lemma_parse_servers_render(entries: Seq<(Seq<char>, Seq<char>)>)
    requires
        forall|k: int|
            0 <= k < entries.len() ==> exists|ad: ServerAddress| (#[trigger] entries[k]).1
                == render_address(ad),
    ensures
        parse_servers_file(render_servers_file(entries)) == Some(entries),
{
    lemma_servers_lines_no_nl(entries);
    lemma_split_join(servers_lines(entries));
    lemma_parse_servers_inv(servers_lines(entries), 0, entries);
}

proof fn lemma_servers_lines_no_nl(entries: Seq<(Seq<char>, Seq<char>)>)
    ensures
        forall|k: int|
            0 <= k < servers_lines(entries).len() ==> !contains_char(
                #[trigger] servers_lines(entries)[k],
                '\n',
            ),
    decreases entries.len(),
{
    if entries.len() > 0 {
        lemma_servers_lines_no_nl(entries.skip(1));
        let e = entries[0];
        let block = server_block_lines(e.0, e.1);
        assert forall|k: int|
            0 <= k < servers_lines(entries).len() implies !contains_char(
            #[trigger] servers_lines(entries)[k],
            '\n',
        ) by {
            if k < 3 {
                assert(servers_lines(entries)[k] == block[k]);
                if k == 0 {
                    lemma_escape_no_newline(e.0);
                    lemma_contains_add(seq!['['], escape_spec(e.0), '\n');
                    lemma_contains_add(seq!['['] + escape_spec(e.0), seq![']'], '\n');
                    assert(!contains_char(seq!['['], '\n')) by {
                        if contains_char(seq!['['], '\n') {
                            let i = choose|i: int| 0 <= i < 1 && seq!['['][i] == '\n';
                            assert(seq!['['][0] == '[');
                        }
                    }
                    assert(!contains_char(seq![']'], '\n')) by {
                        if contains_char(seq![']'], '\n') {
                            let i = choose|i: int| 0 <= i < 1 && seq![']'][i] == '\n';
                            assert(seq![']'][0] == ']');
                        }
                    }
                } else if k == 1 {
                    lemma_no_nl_literal(key_addr());
                    lemma_qline_no_nl(key_addr(), e.1);
                } else {
                    assert(block[2].len() == 0);
                    assert(!contains_char(block[2], '\n'));
                }
            } else {
                assert(servers_lines(entries)[k] == servers_lines(entries.skip(1))[k - 3]);
            }
        }
    }
}

fn push_bracket_open(out: &mut String)
    ensures
        final(out)@ == old(out)@ + seq!['['],
{
    push_char(out, '[');
    proof {
        assert(final(out)@ =~= old(out)@ + seq!['[']);
    }
}

fn push_key_addr(out: &mut String)
    ensures
        final(out)@ == old(out)@ + key_addr(),
{
    proof {
        reveal_strlit("address = ");
        assert(("address = ")@ =~= key_addr());
    }
    out.append("address = ");
}

/// Renders one server block.
fn append_server_block(out: &mut String, name: &str, addr_text: &str)
    ensures
        final(out)@ == old(out)@ + join_nl(server_block_lines(name@, addr_text@)),
{
    let ghost mut ls: Seq<Seq<char>> = Seq::empty();
    push_bracket_open(out);
    append_escaped(out, name);
    push_char(out, ']');
    push_char(out, '\n');
    proof {
        let l = seq!['['] + escape_spec(name@) + seq![']'];
        assert(out@ =~= (old(out)@ + join_nl(ls)) + l + seq!['\n']);
        lemma_join_nl_snoc(ls, l);
        ls = ls.push(l);
        assert(out@ =~= old(out)@ + join_nl(ls));
    }
    push_key_addr(out);
    push_quoted(out, addr_text);
    push_char(out, '\n');
    proof {
        let l = qline(key_addr(), addr_text@);
        assert(out@ =~= (old(out)@ + join_nl(ls)) + l + seq!['\n']);
        lemma_join_nl_snoc(ls, l);
        ls = ls.push(l);
        assert(out@ =~= old(out)@ + join_nl(ls));
    }
    push_char(out, '\n');
    proof {
        let l = Seq::<char>::empty();
        assert(out@ =~= (old(out)@ + join_nl(ls)) + l + seq!['\n']);
        lemma_join_nl_snoc(ls, l);
        ls = ls.push(l);
        assert(out@ =~= old(out)@ + join_nl(ls));
        assert(ls =~= server_block_lines(name@, addr_text@));
    }
}

/// The name-and-rendered-address view of directory entries.
pub open spec fn server_texts(entries: Seq<(String, ServerAddress)>) -> Seq<
    (Seq<char>, Seq<char>),
> {
    Seq::new(entries.len(), |k: int| (entries[k].0@, render_address(entries[k].1)))
}

/// Renders the servers snapshot for a list of entries.
pub fn render_servers(entries: &Vec<(String, ServerAddress)>) -> (s: String)
    ensures
        s@ == render_servers_file(server_texts(entries@)),
{
    let ghost texts = server_texts(entries@);
    let mut out = String::new();
    let mut i: usize = 0;
    proof {
        assert(servers_lines(texts.take(0)) =~= Seq::<Seq<char>>::empty());
        assert(out@ =~= join_nl(servers_lines(texts.take(0))));
    }
    while i < entries.len()
        invariant
            i <= entries@.len(),
            texts == server_texts(entries@),
            out@ == join_nl(servers_lines(texts.take(i as int))),
        decreases entries@.len() - i,
    {
        let name = entries[i].0.clone();
        let ghost addr_text = render_address(entries@[i as int].1);
        let addr = addr_string(&entries[i].1);
        append_server_block(&mut out, name.as_str(), addr.as_str());
        proof {
            assert(texts.take(i as int).push(texts[i as int]) =~= texts.take(i as int + 1));
            lemma_servers_lines_snoc(texts.take(i as int), texts[i as int]);
            lemma_join_nl_add(
                servers_lines(texts.take(i as int)),
                server_block_lines(texts[i as int].0, texts[i as int].1),
            );
            assert(out@ =~= join_nl(servers_lines(texts.take(i as int + 1))));
        }
        i = i + 1;
    }
    proof {
        assert(texts.take(entries@.len() as int) =~= texts);
    }
    out
}

proof fn lemma_servers_lines_snoc(entries: Seq<(Seq<char>, Seq<char>)>, e: (Seq<char>, Seq<char>))
    ensures
        servers_lines(entries.push(e)) == servers_lines(entries) + server_block_lines(e.0, e.1),
    decreases entries.len(),
{
    if entries.len() == 0 {
        assert(entries.push(e) =~= seq![e]);
        assert(seq![e].skip(1) =~= Seq::<(Seq<char>, Seq<char>)>::empty());
        assert(servers_lines(seq![e]) == server_block_lines(e.0, e.1) + servers_lines(
            seq![e].skip(1),
        ));
        assert(server_block_lines(e.0, e.1) + Seq::<Seq<char>>::empty() =~= server_block_lines(
            e.0,
            e.1,
        ));
        assert(servers_lines(entries) + server_block_lines(e.0, e.1) =~= server_block_lines(
            e.0,
            e.1,
        ));
    } else {
        lemma_servers_lines_snoc(entries.skip(1), e);
        assert(entries.push(e).skip(1) =~= entries.skip(1).push(e));
        assert(entries.push(e)[0] == entries[0]);
        assert(server_block_lines(entries[0].0, entries[0].1) + (servers_lines(entries.skip(1))
            + server_block_lines(e.0, e.1)) =~= (server_block_lines(entries[0].0, entries[0].1)
            + servers_lines(entries.skip(1))) + server_block_lines(e.0, e.1));
    }
}

/// The canonical text of an address, as a string.
pub fn addr_string(ad: &ServerAddress) -> (s: String)
    ensures
        s@ == render_address(*ad),
{
    let mut out = String::new();
    crate::digits::append_u64(&mut out, ad.a as u64);
    push_char(&mut out, '.');
    crate::digits::append_u64(&mut out, ad.b as u64);
    push_char(&mut out, '.');
    crate::digits::append_u64(&mut out, ad.c as u64);
    push_char(&mut out, '.');
    crate::digits::append_u64(&mut out, ad.d as u64);
    push_char(&mut out, ':');
    crate::digits::append_u64(&mut out, ad.port as u64);
    proof {
        assert(out@ =~= render_address(*ad));
    }
    out
}

/// Reads a servers snapshot. `Some` holds each registered name with its
/// address; `None` means the file is malformed.
#[verifier::rlimit(100)]
#[verifier::loop_isolation(false)]
pub fn parse_servers(s: &str) -> (r: Option<Vec<(String, ServerAddress)>>)
    ensures
        match r {
            Some(v) => parse_servers_file(s@) == Some(server_texts(v@)),
            None => parse_servers_file(s@) is None,
        },
{
    let ghost lines = split_lines(s@);
    let spans = line_spans(s);
    let mut out: Vec<(String, ServerAddress)> = Vec::new();
    let mut pos: usize = 0;
    proof {
        assert(spans_ok(spans@, s@));
        assert(server_texts(out@) =~= Seq::<(Seq<char>, Seq<char>)>::empty());
        assert forall|rest: Seq<(Seq<char>, Seq<char>)>| server_texts(out@) + rest =~= rest by {}
    }
    while pos < spans.len()
        invariant
            pos <= spans@.len(),
            parse_servers_at(lines, 0) == (match parse_servers_at(lines, pos as int) {
                Some(rest) => Some(server_texts(out@) + rest),
                None => None::<Seq<(Seq<char>, Seq<char>)>>,
            }),
        decreases spans@.len() - pos,
    {
        if spans.len() - pos < 3 {
            proof {
                assert(parse_server_at(lines, pos as int) is None);
            }
            return None;
        }
        let sp0 = spans[pos];
        proof {
            lemma_span_line(spans@, s@, pos as int);
        }
        // the bracketed name line
        if sp0.1 - sp0.0 < 2 {
            proof {
                assert(parse_server_at(lines, pos as int) is None);
            }
            return None;
        }
        if s.get_char(sp0.0) != '[' {
            proof {
                assert(lines[pos as int][0] == s@[sp0.0 as int]);
                assert(parse_server_at(lines, pos as int) is None);
            }
            return None;
        }
        if s.get_char(sp0.1 - 1) != ']' {
            proof {
                assert(lines[pos as int].last() == s@[sp0.1 - 1]);
                assert(parse_server_at(lines, pos as int) is None);
            }
            return None;
        }
        proof {
            assert(lines[pos as int][0] == s@[sp0.0 as int]);
            assert(lines[pos as int].last() == s@[sp0.1 - 1]);
            assert(lines[pos as int].subrange(1, lines[pos as int].len() - 1) =~= s@.subrange(
                sp0.0 + 1,
                sp0.1 - 1,
            ));
        }
        let name = match unescape_range(s, sp0.0 + 1, sp0.1 - 1) {
            Some(v) => v,
            None => {
                proof {
                    assert(parse_server_at(lines, pos as int) is None);
                }
                return None;
            },
        };
        // the quoted address line
        let sp1 = spans[pos + 1];
        proof {
            lemma_span_line(spans@, s@, pos as int + 1);
            reveal_strlit("address = ");
            assert(("address = ")@ =~= key_addr());
        }
        let text = match parse_q_span(s, sp1.0, sp1.1, "address = ", 10) {
            Some(v) => v,
            None => {
                proof {
                    assert(parse_server_at(lines, pos as int) is None);
                }
                return None;
            },
        };
        let ad = match parse_address(text.as_str()) {
            Some(ad) => ad,
            None => {
                proof {
                    assert(parse_server_at(lines, pos as int) is None) by {
                        assert(parse_q_line(lines[pos as int + 1], key_addr()) is Some);
                    }
                }
                return None;
            },
        };
        proof {
            assert(text@ == render_address(ad));
        }
        // the blank separator line
        let sp2 = spans[pos + 2];
        proof {
            lemma_span_line(spans@, s@, pos as int + 2);
        }
        if sp2.1 - sp2.0 != 0 {
            proof {
                assert(lines[pos as int + 2].len() == sp2.1 - sp2.0);
                assert(parse_server_at(lines, pos as int) is None);
            }
            return None;
        }
        proof {
            assert(lines[pos as int + 2].len() == 0);
            assert(parse_server_at(lines, pos as int) == Some(
                ((name@, text@), pos as int + 3),
            ));
        }
        let ghost before = out@;
        out.push((name, ad));
        proof {
            assert(server_texts(out@) =~= server_texts(before).push(
                (out@.last().0@, render_address(out@.last().1)),
            ));
            assert forall|rest: Seq<(Seq<char>, Seq<char>)>|
                server_texts(before) + (seq![(out@.last().0@, render_address(out@.last().1))]
                    + rest) =~= server_texts(out@) + rest by {}
        }
        pos = pos + 3;
    }
    proof {
        assert(parse_servers_at(lines, pos as int) == Some(
            Seq::<(Seq<char>, Seq<char>)>::empty(),
        ));
        assert(server_texts(out@) + Seq::<(Seq<char>, Seq<char>)>::empty() =~= server_texts(
            out@,
        ));
    }
    Some(out)
}

} // verus!

