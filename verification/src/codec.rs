//! The document form of a molecule: one JSON text with the atom table, the
//! edge table and the group relation. The writer produces the canonical
//! form; the reader accepts exactly that form and decides every other
//! input with an error, so a program that echoes its input always reads
//! back as the molecule it was given.
use vstd::prelude::*;
use vstd::string::*;

use crate::molecule::{
    atom_entries_wf, atom_v_wf, molecule_v_wf, vec3_v_wf, Atom, AtomTable, AtomV, BondGraph,
    GroupTable, Molecule, MoleculeV, Vec3, Vec3V,
};
use crate::numbers::{dec_of, is_digit, is_json_number, num_char, push_char, val_of};
use crate::pair::Pair;
use crate::tablespec::kv_insert;

verus! {

pub open spec fn hex_digit(d: nat) -> char {
    if d < 10 {
        crate::numbers::digit_char(d)
    } else if d == 10 {
        'a'
    } else if d == 11 {
        'b'
    } else if d == 12 {
        'c'
    } else if d == 13 {
        'd'
    } else if d == 14 {
        'e'
    } else {
        'f'
    }
}

/// The writing of one character inside a quoted string.
pub open spec fn esc_char(c: char) -> Seq<char> {
    if c == '"' {
        seq!['\\', '"']
    } else if c == '\\' {
        seq!['\\', '\\']
    } else if c == '\n' {
        seq!['\\', 'n']
    } else if c == '\r' {
        seq!['\\', 'r']
    } else if c == '\t' {
        seq!['\\', 't']
    } else if (c as nat) < 32 {
        seq!['\\', 'u', '0', '0', hex_digit((c as nat) / 16), hex_digit((c as nat) % 16)]
    } else {
        seq![c]
    }
}

pub open spec fn esc(s: Seq<char>) -> Seq<char>
    decreases s.len(),
{
    if s.len() == 0 {
        Seq::empty()
    } else {
        esc_char(s[0]) + esc(s.skip(1))
    }
}

/// A quoted string literal.
pub open spec fn str_lit(s: Seq<char>) -> Seq<char> {
    seq!['"'] + esc(s) + seq!['"']
}

pub open spec fn ser_vec3(v: Vec3V) -> Seq<char> {
    seq!['['] + v.x + seq![','] + v.y + seq![','] + v.z + seq![']']
}

pub open spec fn ser_atom(a: AtomV) -> Seq<char> {
    "{\"element\":"@ + dec_of(a.element as nat) + ",\"position\":"@ + ser_vec3(a.position)
        + seq!['}']
}

pub open spec fn ser_opt_atom(o: Option<AtomV>) -> Seq<char> {
    match o {
        None => "null"@,
        Some(a) => ser_atom(a),
    }
}

pub open spec fn ser_atom_entry(e: (usize, Option<AtomV>)) -> Seq<char> {
    seq!['"'] + dec_of(e.0 as nat) + "\":"@ + ser_opt_atom(e.1)
}

pub open spec fn ser_bond_key(p: Pair) -> Seq<char> {
    seq!['"'] + dec_of(p.lo() as nat) + seq![','] + dec_of(p.hi() as nat) + seq!['"']
}

pub open spec fn ser_opt_num(o: Option<Seq<char>>) -> Seq<char> {
    match o {
        None => "null"@,
        Some(w) => w,
    }
}

pub open spec fn ser_bond_entry(e: (Pair, Option<Seq<char>>)) -> Seq<char> {
    ser_bond_key(e.0) + seq![':'] + ser_opt_num(e.1)
}

pub open spec fn ser_group_entry(e: (usize, Seq<char>)) -> Seq<char> {
    seq!['['] + dec_of(e.0 as nat) + seq![','] + str_lit(e.1) + seq![']']
}

/// Comma-separated writings of the entries.
pub open spec fn ser_atom_list(s: Seq<(usize, Option<AtomV>)>) -> Seq<char>
    decreases s.len(),
{
    if s.len() == 0 {
        Seq::empty()
    } else if s.len() == 1 {
        ser_atom_entry(s[0])
    } else {
        ser_atom_entry(s[0]) + seq![','] + ser_atom_list(s.skip(1))
    }
}

pub proof fn lemma_ser_atom_list_push(s: Seq<(usize, Option<AtomV>)>, e: (usize, Option<AtomV>))
    ensures
        ser_atom_list(s.push(e)) == if s.len() == 0 {
            ser_atom_entry(e)
        } else {
            ser_atom_list(s) + seq![','] + ser_atom_entry(e)
        },
    decreases s.len(),
{
    if s.len() == 0 {
        assert(s.push(e)[0] == e);
        assert(s.push(e).len() == 1);
    } else if s.len() == 1 {
        assert(s.push(e)[0] == s[0]);
        assert(s.push(e).skip(1) =~= seq![e]);
        assert(ser_atom_list(s.push(e)) == ser_atom_entry(s[0]) + seq![','] + ser_atom_list(seq![e]));
        assert(ser_atom_list(seq![e]) == ser_atom_entry(e));
        assert(ser_atom_list(s) == ser_atom_entry(s[0]));
    } else {
        assert(s.push(e)[0] == s[0]);
        assert(s.push(e).skip(1) =~= s.skip(1).push(e));
        lemma_ser_atom_list_push(s.skip(1), e);
        assert(ser_atom_list(s.push(e)) == ser_atom_entry(s[0]) + seq![','] + ser_atom_list(s.skip(1).push(e)));
        assert(ser_atom_list(s) == ser_atom_entry(s[0]) + seq![','] + ser_atom_list(s.skip(1)));
        assert(ser_atom_entry(s[0]) + seq![','] + (ser_atom_list(s.skip(1)) + seq![','] + ser_atom_entry(e)) =~= (ser_atom_entry(s[0])
            + seq![','] + ser_atom_list(s.skip(1))) + seq![','] + ser_atom_entry(e));
    }
}

/// Comma-separated writings of the entries.
pub open spec fn ser_bond_list(s: Seq<(Pair, Option<Seq<char>>)>) -> Seq<char>
    decreases s.len(),
{
    if s.len() == 0 {
        Seq::empty()
    } else if s.len() == 1 {
        ser_bond_entry(s[0])
    } else {
        ser_bond_entry(s[0]) + seq![','] + ser_bond_list(s.skip(1))
    }
}

pub proof fn lemma_ser_bond_list_push(s: Seq<(Pair, Option<Seq<char>>)>, e: (Pair, Option<Seq<char>>))
    ensures
        ser_bond_list(s.push(e)) == if s.len() == 0 {
            ser_bond_entry(e)
        } else {
            ser_bond_list(s) + seq![','] + ser_bond_entry(e)
        },
    decreases s.len(),
{
    if s.len() == 0 {
        assert(s.push(e)[0] == e);
        assert(s.push(e).len() == 1);
    } else if s.len() == 1 {
        assert(s.push(e)[0] == s[0]);
        assert(s.push(e).skip(1) =~= seq![e]);
        assert(ser_bond_list(s.push(e)) == ser_bond_entry(s[0]) + seq![','] + ser_bond_list(seq![e]));
        assert(ser_bond_list(seq![e]) == ser_bond_entry(e));
        assert(ser_bond_list(s) == ser_bond_entry(s[0]));
    } else {
        assert(s.push(e)[0] == s[0]);
        assert(s.push(e).skip(1) =~= s.skip(1).push(e));
        lemma_ser_bond_list_push(s.skip(1), e);
        assert(ser_bond_list(s.push(e)) == ser_bond_entry(s[0]) + seq![','] + ser_bond_list(s.skip(1).push(e)));
        assert(ser_bond_list(s) == ser_bond_entry(s[0]) + seq![','] + ser_bond_list(s.skip(1)));
        assert(ser_bond_entry(s[0]) + seq![','] + (ser_bond_list(s.skip(1)) + seq![','] + ser_bond_entry(e)) =~= (ser_bond_entry(s[0])
            + seq![','] + ser_bond_list(s.skip(1))) + seq![','] + ser_bond_entry(e));
    }
}

/// Comma-separated writings of the entries.
pub open spec fn ser_group_list(s: Seq<(usize, Seq<char>)>) -> Seq<char>
    decreases s.len(),
{
    if s.len() == 0 {
        Seq::empty()
    } else if s.len() == 1 {
        ser_group_entry(s[0])
    } else {
        ser_group_entry(s[0]) + seq![','] + ser_group_list(s.skip(1))
    }
}

pub proof fn lemma_ser_group_list_push(s: Seq<(usize, Seq<char>)>, e: (usize, Seq<char>))
    ensures
        ser_group_list(s.push(e)) == if s.len() == 0 {
            ser_group_entry(e)
        } else {
            ser_group_list(s) + seq![','] + ser_group_entry(e)
        },
    decreases s.len(),
{
    if s.len() == 0 {
        assert(s.push(e)[0] == e);
        assert(s.push(e).len() == 1);
    } else if s.len() == 1 {
        assert(s.push(e)[0] == s[0]);
        assert(s.push(e).skip(1) =~= seq![e]);
        assert(ser_group_list(s.push(e)) == ser_group_entry(s[0]) + seq![','] + ser_group_list(seq![e]));
        assert(ser_group_list(seq![e]) == ser_group_entry(e));
        assert(ser_group_list(s) == ser_group_entry(s[0]));
    } else {
        assert(s.push(e)[0] == s[0]);
        assert(s.push(e).skip(1) =~= s.skip(1).push(e));
        lemma_ser_group_list_push(s.skip(1), e);
        assert(ser_group_list(s.push(e)) == ser_group_entry(s[0]) + seq![','] + ser_group_list(s.skip(1).push(e)));
        assert(ser_group_list(s) == ser_group_entry(s[0]) + seq![','] + ser_group_list(s.skip(1)));
        assert(ser_group_entry(s[0]) + seq![','] + (ser_group_list(s.skip(1)) + seq![','] + ser_group_entry(e)) =~= (ser_group_entry(s[0])
            + seq![','] + ser_group_list(s.skip(1))) + seq![','] + ser_group_entry(e));
    }
}

/// The canonical document of a molecule.
pub open spec fn ser_molecule(m: MoleculeV) -> Seq<char> {
    "{\"atoms\":{"@ + ser_atom_list(m.atoms) + "},\"bonds\":{"@ + ser_bond_list(m.bonds)
        + "},\"groups\":["@ + ser_group_list(m.groups) + "]}"@
}

fn push_lit(out: &mut String, lit: &str)
    ensures
        final(out)@ == old(out)@ + lit@,
{
    out.append(lit);
}

fn push_usize(out: &mut String, n: usize)
    ensures
        final(out)@ == old(out)@ + dec_of(n as nat),
{
    let d = crate::numbers::format_usize(n);
    out.append(d.as_str());
}

fn hex_digit_exec(d: usize) -> (r: char)
    requires
        d < 16,
    ensures
        r == hex_digit(d as nat),
{
    if d == 0 {
        '0'
    } else if d == 1 {
        '1'
    } else if d == 2 {
        '2'
    } else if d == 3 {
        '3'
    } else if d == 4 {
        '4'
    } else if d == 5 {
        '5'
    } else if d == 6 {
        '6'
    } else if d == 7 {
        '7'
    } else if d == 8 {
        '8'
    } else if d == 9 {
        '9'
    } else if d == 10 {
        'a'
    } else if d == 11 {
        'b'
    } else if d == 12 {
        'c'
    } else if d == 13 {
        'd'
    } else if d == 14 {
        'e'
    } else {
        'f'
    }
}

fn push_escaped(out: &mut String, s: &str)
    ensures
        final(out)@ == old(out)@ + str_lit(s@),
{
    push_char(out, '"');
    let n = s.unicode_len();
    let mut i: usize = 0;
    while i < n
        invariant
            0 <= i <= n,
            n == s@.len(),
            out@ == old(out)@ + seq!['"'] + esc(s@.take(i as int)),
        decreases n - i,
    {
        let c = s.get_char(i);
        if c == '"' {
            push_char(out, '\\');
            push_char(out, '"');
        } else if c == '\\' {
            push_char(out, '\\');
            push_char(out, '\\');
        } else if c == '\n' {
            push_char(out, '\\');
            push_char(out, 'n');
        } else if c == '\r' {
            push_char(out, '\\');
            push_char(out, 'r');
        } else if c == '\t' {
            push_char(out, '\\');
            push_char(out, 't');
        } else if (c as u32) < 32 {
            let v = (c as u32) as usize;
            push_char(out, '\\');
            push_char(out, 'u');
            push_char(out, '0');
            push_char(out, '0');
            push_char(out, hex_digit_exec(v / 16));
            push_char(out, hex_digit_exec(v % 16));
        } else {
            push_char(out, c);
        }
        proof {
            lemma_esc_push(s@, i as int);
            assert(out@ =~= old(out)@ + seq!['"'] + esc(s@.take(i as int + 1)));
        }
        i = i + 1;
    }
    push_char(out, '"');
    proof {
        assert(s@.take(n as int) =~= s@);
        assert(out@ =~= old(out)@ + str_lit(s@));
    }
}

/// Escaping one more character appends that character's writing.
proof fn lemma_esc_push(s: Seq<char>, i: int)
    requires
        0 <= i < s.len(),
    ensures
        esc(s.take(i + 1)) == esc(s.take(i)) + esc_char(s[i]),
    decreases i,
{
    if i == 0 {
        assert(s.take(1)[0] == s[0]);
        assert(s.take(1).skip(1) =~= Seq::<char>::empty());
        assert(esc(s.take(1)) == esc_char(s[0]) + esc(s.take(1).skip(1)));
        assert(esc(s.take(1)) =~= esc(s.take(0)) + esc_char(s[0]));
    } else {
        assert(s.take(i + 1)[0] == s[0]);
        assert(s.take(i + 1).skip(1) =~= s.skip(1).take(i));
        assert(s.take(i)[0] == s[0]);
        assert(s.take(i).skip(1) =~= s.skip(1).take(i - 1));
        lemma_esc_push(s.skip(1), i - 1);
        assert(s.skip(1)[i - 1] == s[i]);
        assert(esc(s.take(i + 1)) == esc_char(s[0]) + esc(s.skip(1).take(i)));
        assert(esc(s.take(i)) == esc_char(s[0]) + esc(s.skip(1).take(i - 1)));
        assert(esc_char(s[0]) + (esc(s.skip(1).take(i - 1)) + esc_char(s[i])) =~= (esc_char(s[0])
            + esc(s.skip(1).take(i - 1))) + esc_char(s[i]));
    }
}

fn push_vec3(out: &mut String, v: &Vec3)
    ensures
        final(out)@ == old(out)@ + ser_vec3(v.deep_view()),
{
    push_char(out, '[');
    out.append(v.x.as_str());
    push_char(out, ',');
    out.append(v.y.as_str());
    push_char(out, ',');
    out.append(v.z.as_str());
    push_char(out, ']');
    proof {
        assert(out@ =~= old(out)@ + ser_vec3(v.deep_view()));
    }
}

fn push_opt_atom(out: &mut String, o: &Option<Atom>)
    ensures
        final(out)@ == old(out)@ + ser_opt_atom(o.deep_view()),
{
    match o {
        None => {
            push_lit(out, "null");
        },
        Some(a) => {
            push_lit(out, "{\"element\":");
            push_usize(out, a.element);
            push_lit(out, ",\"position\":");
            push_vec3(out, &a.position);
            push_char(out, '}');
            proof {
                assert(out@ =~= old(out)@ + ser_atom(a.deep_view()));
            }
        },
    }
}

fn push_atoms(out: &mut String, atoms: &AtomTable)
    ensures
        final(out)@ == old(out)@ + ser_atom_list(atoms.deep_view()),
{
    let ghost s = atoms.deep_view();
    let n = atoms.entries.len();
    let mut i: usize = 0;
    while i < n
        invariant
            0 <= i <= n,
            n == s.len(),
            s == atoms.deep_view(),
            out@ == old(out)@ + ser_atom_list(s.take(i as int)),
        decreases n - i,
    {
        if i > 0 {
            push_char(out, ',');
        }
        push_char(out, '"');
        push_usize(out, atoms.entries[i].0);
        push_lit(out, "\":");
        push_opt_atom(out, &atoms.entries[i].1);
        proof {
            assert(s[i as int] == (atoms.entries@[i as int].0, atoms.entries@[i as int].1.deep_view()));
            lemma_ser_atom_list_push(s.take(i as int), s[i as int]);
            assert(s.take(i as int).push(s[i as int]) =~= s.take(i as int + 1));
            assert(ser_atom_entry(s[i as int]) =~= seq!['"'] + dec_of(
                atoms.entries@[i as int].0 as nat,
            ) + "\":"@ + ser_opt_atom(atoms.entries@[i as int].1.deep_view()));
            assert(out@ =~= old(out)@ + ser_atom_list(s.take(i as int + 1)));
        }
        i = i + 1;
    }
    proof {
        assert(s.take(n as int) =~= s);
    }
}

fn push_bonds(out: &mut String, bonds: &BondGraph)
    ensures
        final(out)@ == old(out)@ + ser_bond_list(bonds.deep_view()),
{
    let ghost s = bonds.deep_view();
    let n = bonds.entries.len();
    let mut i: usize = 0;
    while i < n
        invariant
            0 <= i <= n,
            n == s.len(),
            s == bonds.deep_view(),
            out@ == old(out)@ + ser_bond_list(s.take(i as int)),
        decreases n - i,
    {
        if i > 0 {
            push_char(out, ',');
        }
        let (lo, hi) = bonds.entries[i].0.components();
        push_char(out, '"');
        push_usize(out, lo);
        push_char(out, ',');
        push_usize(out, hi);
        push_char(out, '"');
        push_char(out, ':');
        match &bonds.entries[i].1 {
            None => {
                push_lit(out, "null");
            },
            Some(w) => {
                out.append(w.as_str());
            },
        }
        proof {
            assert(s[i as int] == (
                bonds.entries@[i as int].0,
                bonds.entries@[i as int].1.deep_view(),
            ));
            lemma_ser_bond_list_push(s.take(i as int), s[i as int]);
            assert(s.take(i as int).push(s[i as int]) =~= s.take(i as int + 1));
            assert(ser_bond_entry(s[i as int]) =~= ser_bond_key(bonds.entries@[i as int].0)
                + seq![':'] + ser_opt_num(bonds.entries@[i as int].1.deep_view()));
            assert(out@ =~= old(out)@ + ser_bond_list(s.take(i as int + 1)));
        }
        i = i + 1;
    }
    proof {
        assert(s.take(n as int) =~= s);
    }
}

fn push_groups(out: &mut String, groups: &GroupTable)
    ensures
        final(out)@ == old(out)@ + ser_group_list(groups.deep_view()),
{
    let ghost s = groups.deep_view();
    let n = groups.entries.len();
    let mut i: usize = 0;
    while i < n
        invariant
            0 <= i <= n,
            n == s.len(),
            s == groups.deep_view(),
            out@ == old(out)@ + ser_group_list(s.take(i as int)),
        decreases n - i,
    {
        if i > 0 {
            push_char(out, ',');
        }
        push_char(out, '[');
        push_usize(out, groups.entries[i].0);
        push_char(out, ',');
        push_escaped(out, groups.entries[i].1.as_str());
        push_char(out, ']');
        proof {
            assert(s[i as int] == (groups.entries@[i as int].0, groups.entries@[i as int].1@));
            lemma_ser_group_list_push(s.take(i as int), s[i as int]);
            assert(s.take(i as int).push(s[i as int]) =~= s.take(i as int + 1));
            assert(ser_group_entry(s[i as int]) =~= seq!['['] + dec_of(
                groups.entries@[i as int].0 as nat,
            ) + seq![','] + str_lit(groups.entries@[i as int].1@) + seq![']']);
            assert(out@ =~= old(out)@ + ser_group_list(s.take(i as int + 1)));
        }
        i = i + 1;
    }
    proof {
        assert(s.take(n as int) =~= s);
    }
}

/// A character's code point.
pub open spec fn char_code(c: char) -> nat {
    c as nat
}

/// Relies on std's `char::from_u32`: the character with this code point,
/// `None` exactly on surrogate codes and codes past the last code point.
#[verifier::external_body]
fn char_from_code(code: u32) -> (r: Option<char>)
    ensures
        r matches Some(c) ==> char_code(c) == code as nat && (forall|c2: char|
            #[trigger] char_code(c2) == code as nat ==> c2 == c),
        (code < 0xD800 || (0xE000 <= code && code < 0x110000)) <==> r is Some,
{
    char::from_u32(code)
}

/// Escaping splits over any cut of the string.
proof fn lemma_esc_split(s: Seq<char>, t: int)
    requires
        0 <= t <= s.len(),
    ensures
        esc(s) == esc(s.take(t)) + esc(s.skip(t)),
    decreases t,
{
    if t == 0 {
        assert(s.take(0) =~= Seq::<char>::empty());
        assert(s.skip(0) =~= s);
        assert(esc(s) =~= esc(s.take(0)) + esc(s.skip(0)));
    } else {
        lemma_esc_split(s, t - 1);
        lemma_esc_push(s, t - 1);
        assert(s.skip(t - 1)[0] == s[t - 1]);
        assert(s.skip(t - 1).skip(1) =~= s.skip(t));
        assert(esc(s.skip(t - 1)) == esc_char(s[t - 1]) + esc(s.skip(t)));
        assert(esc(s.take(t - 1)) + (esc_char(s[t - 1]) + esc(s.skip(t))) =~= (esc(s.take(t - 1))
            + esc_char(s[t - 1])) + esc(s.skip(t)));
    }
}

/// Matches the exact text `lit` at position `i`.
fn match_lit(s: &str, i: usize, lit: &str) -> (r: Option<usize>)
    requires
        i <= s@.len(),
    ensures
        r matches Some(j) ==> i + lit@.len() <= s@.len() && j == i + lit@.len()
            && s@.subrange(i as int, j as int) == lit@,
        i + lit@.len() <= s@.len() && s@.subrange(i as int, i + lit@.len()) == lit@ ==> r
            is Some,
{
    let n = s.unicode_len();
    let m = lit.unicode_len();
    if m > n - i {
        proof {
            if i + lit@.len() <= s@.len() {
                assert(false);
            }
        }
        return None;
    }
    let mut k: usize = 0;
    loop
        invariant
            0 <= k <= m,
            m == lit@.len(),
            n == s@.len(),
            i + m <= n,
            forall|t: int| 0 <= t < k ==> s@[i + t] == lit@[t],
        ensures
            if k < m {
                s@[i + k] != lit@[k as int]
            } else {
                forall|t: int| 0 <= t < m ==> s@[i + t] == lit@[t]
            },
        decreases m - k,
    {
        if k == m {
            break ;
        }
        if s.get_char(i + k) != lit.get_char(k) {
            break ;
        }
        k = k + 1;
    }
    if k == m {
        proof {
            assert(s@.subrange(i as int, i + m) =~= lit@);
        }
        Some(i + m)
    } else {
        proof {
            if s@.subrange(i as int, i + lit@.len()) == lit@ {
                assert(s@.subrange(i as int, i + m)[k as int] == s@[i + k]);
                assert(false);
            }
        }
        None
    }
}

/// Reads a number token: the longest run of number characters, accepted
/// only when it is a number writing.
fn parse_number_tok(s: &str, i: usize) -> (r: Option<(String, usize)>)
    requires
        i <= s@.len(),
    ensures
        r matches Some((w, j)) ==> i < j <= s@.len() && w@ == s@.subrange(i as int, j as int)
            && is_json_number(w@),
        forall|w: Seq<char>|
            is_json_number(w) && i + w.len() <= s@.len() && #[trigger] s@.subrange(
                i as int,
                i + w.len(),
            ) == w && (i + w.len() == s@.len() || !num_char(s@[i + w.len()])) ==> (r matches Some(
                (w2, j2),
            ) && w2@ == w && j2 == i + w.len()),
{
    let n = s.unicode_len();
    let mut j: usize = i;
    loop
        invariant
            i <= j <= n,
            n == s@.len(),
            forall|m: int| i <= m < j ==> num_char(s@[m]),
        ensures
            i <= j <= n,
            forall|m: int| i <= m < j ==> num_char(s@[m]),
            j < n ==> !num_char(s@[j as int]),
        decreases n - j,
    {
        if j == n {
            break ;
        }
        let c = s.get_char(j);
        if !(('0' <= c && c <= '9') || c == '-' || c == '+' || c == '.' || c == 'e' || c == 'E') {
            proof {
                assert(!num_char(s@[j as int]));
            }
            break ;
        }
        proof {
            assert(num_char(s@[j as int]));
        }
        j = j + 1;
    }
    if j == i {
        proof {
            assert forall|w: Seq<char>|
                is_json_number(w) && i + w.len() <= s@.len() && #[trigger] s@.subrange(
                    i as int,
                    i + w.len(),
                ) == w && (i + w.len() == s@.len() || !num_char(s@[i + w.len()])) implies false by {
                crate::numbers::lemma_number_chars(w);
                assert(s@[i as int] == w[0]);
            }
        }
        return None;
    }
    let tok = s.substring_char(i, j);
    let w = String::from_str(tok);
    if crate::numbers::check_json_number(w.as_str()) {
        proof {
            assert forall|w0: Seq<char>|
                is_json_number(w0) && i + w0.len() <= s@.len() && #[trigger] s@.subrange(
                    i as int,
                    i + w0.len(),
                ) == w0 && (i + w0.len() == s@.len() || !num_char(s@[i + w0.len()])) implies w@
                == w0 && j == i + w0.len() by {
                crate::numbers::lemma_number_chars(w0);
                assert forall|m: int| i <= m < i + w0.len() implies num_char(s@[m]) by {
                    assert(w0[m - i] == s@.subrange(i as int, i + w0.len())[m - i]);
                }
                assert(j >= i + w0.len()) by {
                    if j < i + w0.len() {
                        assert(num_char(s@[j as int]));
                    }
                }
                assert(j <= i + w0.len()) by {
                    if j > i + w0.len() {
                        assert(num_char(s@[i + w0.len()]));
                    }
                }
                assert(w@ =~= w0);
            }
        }
        Some((w, j))
    } else {
        proof {
            assert forall|w0: Seq<char>|
                is_json_number(w0) && i + w0.len() <= s@.len() && #[trigger] s@.subrange(
                    i as int,
                    i + w0.len(),
                ) == w0 && (i + w0.len() == s@.len() || !num_char(s@[i + w0.len()])) implies false by {
                crate::numbers::lemma_number_chars(w0);
                assert forall|m: int| i <= m < i + w0.len() implies num_char(s@[m]) by {
                    assert(w0[m - i] == s@.subrange(i as int, i + w0.len())[m - i]);
                }
                assert(j >= i + w0.len()) by {
                    if j < i + w0.len() {
                        assert(num_char(s@[j as int]));
                    }
                }
                assert(j <= i + w0.len()) by {
                    if j > i + w0.len() {
                        assert(num_char(s@[i + w0.len()]));
                    }
                }
                assert(w@ =~= w0);
            }
        }
        None
    }
}

fn hex_val_exec(c: char) -> (r: Option<usize>)
    ensures
        r matches Some(v) ==> v < 16 && hex_digit(v as nat) == c,
        forall|d: nat| d < 16 && hex_digit(d) == c ==> (r matches Some(v) && v == d),
{
    if c == '0' {
        Some(0)
    } else if c == '1' {
        Some(1)
    } else if c == '2' {
        Some(2)
    } else if c == '3' {
        Some(3)
    } else if c == '4' {
        Some(4)
    } else if c == '5' {
        Some(5)
    } else if c == '6' {
        Some(6)
    } else if c == '7' {
        Some(7)
    } else if c == '8' {
        Some(8)
    } else if c == '9' {
        Some(9)
    } else if c == 'a' {
        Some(10)
    } else if c == 'b' {
        Some(11)
    } else if c == 'c' {
        Some(12)
    } else if c == 'd' {
        Some(13)
    } else if c == 'e' {
        Some(14)
    } else if c == 'f' {
        Some(15)
    } else {
        None
    }
}

/// The text at `p` spells the six-character escape of the control
/// character `wc`.
pub open spec fn u_escape_form(s: Seq<char>, p: int, wc: char) -> bool {
    &&& (wc as nat) < 32
    &&& p + 6 <= s.len()
    &&& s[p + 2] == '0'
    &&& s[p + 3] == '0'
    &&& s[p + 4] == hex_digit((wc as nat) / 16)
    &&& s[p + 5] == hex_digit((wc as nat) % 16)
}

/// Reads the four hex digits of a `\u` escape and decodes the character.
fn parse_u_escape(s: &str, p: usize) -> (r: Option<(char, usize)>)
    requires
        p + 2 <= s@.len(),
    ensures
        r matches Some((ch, p2)) ==> p2 == p + 6 && p + 6 <= s@.len(),
        forall|wc: char|
            #[trigger] u_escape_form(s@, p as int, wc) ==> (r matches Some((ch, p2)) && ch == wc
                && p2 == p + 6),
{
    let n = s.unicode_len();
    if n - p < 6 {
        return None;
    }
    let h1 = hex_val_exec(s.get_char(p + 2));
    let h2 = hex_val_exec(s.get_char(p + 3));
    let h3 = hex_val_exec(s.get_char(p + 4));
    let h4 = hex_val_exec(s.get_char(p + 5));
    let (a, b, cc, d) = match (h1, h2, h3, h4) {
        (Some(a), Some(b), Some(cc), Some(d)) => (a, b, cc, d),
        _ => {
            proof {
                assert forall|wc: char| #[trigger] u_escape_form(s@, p as int, wc) implies false by {
                    assert(hex_digit(0) == '0');
                    assert((wc as nat) / 16 < 16 && (wc as nat) % 16 < 16);
                }
            }
            return None;
        },
    };
    let code = (((a * 16 + b) * 16 + cc) * 16 + d) as u32;
    let got = char_from_code(code);
    proof {
        assert forall|wc: char|
            #[trigger] u_escape_form(s@, p as int, wc) implies (got matches Some(ch2) && ch2
            == wc) by {
            assert(hex_digit(0) == '0');
            assert((wc as nat) / 16 < 16 && (wc as nat) % 16 < 16);
            assert(a == 0);
            assert(b == 0);
            assert(cc == (wc as nat) / 16);
            assert(d == (wc as nat) % 16);
            vstd::arithmetic::div_mod::lemma_fundamental_div_mod(wc as int, 16);
            assert(((a * 16 + b) * 16 + cc) * 16 + d <= 0xffff);
            assert(code as nat == cc * 16 + d);
            assert(char_code(wc) == wc as nat);
            assert(char_code(wc) == code as nat);
            assert(got matches Some(ch2) && ch2 == wc);
        }
    }
    match got {
        Some(ch) => Some((ch, p + 6)),
        None => None,
    }
}

/// Decodes one backslash escape that starts at position `p`.
fn parse_escape(s: &str, p: usize) -> (r: Option<(char, usize)>)
    requires
        p < s@.len(),
    ensures
        r matches Some((ch, p2)) ==> p < p2 <= s@.len(),
        forall|wc: char|
            ((#[trigger] esc_char(wc)).len() >= 2 && p + esc_char(wc).len() <= s@.len() && (
            forall|u: int|
                0 <= u < esc_char(wc).len() ==> s@[p + u] == esc_char(wc)[u])) ==> (r matches Some(
                (ch, p2),
            ) && ch == wc && p2 == p + esc_char(wc).len()),
{
    let n = s.unicode_len();
    if p + 1 >= n {
        proof {
            assert forall|wc: char|
                ((#[trigger] esc_char(wc)).len() >= 2 && p + esc_char(wc).len() <= s@.len() && (
                forall|u: int|
                    0 <= u < esc_char(wc).len() ==> s@[p + u] == esc_char(wc)[u])) implies false by {}
        }
        return None;
    }
    let e = s.get_char(p + 1);
    let simple: Option<char> = if e == '"' {
        Some('"')
    } else if e == '\\' {
        Some('\\')
    } else if e == '/' {
        Some('/')
    } else if e == 'n' {
        Some('\n')
    } else if e == 'r' {
        Some('\r')
    } else if e == 't' {
        Some('\t')
    } else if e == 'b' {
        Some('\u{8}')
    } else if e == 'f' {
        Some('\u{c}')
    } else {
        None
    };
    match simple {
        Some(ch) => {
            proof {
                assert forall|wc: char|
                    ((#[trigger] esc_char(wc)).len() >= 2 && p + esc_char(wc).len() <= s@.len()
                        && (forall|u: int|
                        0 <= u < esc_char(wc).len() ==> s@[p + u] == esc_char(wc)[u])) implies ch
                    == wc && p + 2 == p + esc_char(wc).len() by {
                    let ec = esc_char(wc);
                    assert(s@[p as int + 1] == ec[1]);
                    assert(ec.len() >= 2 ==> (wc == '"' || wc == '\\' || wc == '\n' || wc == '\r'
                        || wc == '\t' || (wc as nat) < 32));
                    if (wc as nat) < 32 && wc != '\n' && wc != '\r' && wc != '\t' {
                        assert(ec[1] == 'u');
                        assert(e == 'u');
                        assert(false);
                    }
                }
            }
            Some((ch, p + 2))
        },
        None => {
            if e == 'u' {
                let ret = parse_u_escape(s, p);
                proof {
                    assert forall|wc: char|
                        ((#[trigger] esc_char(wc)).len() >= 2 && p + esc_char(wc).len()
                            <= s@.len() && (forall|u: int|
                            0 <= u < esc_char(wc).len() ==> s@[p + u] == esc_char(wc)[u]))
                        implies (ret matches Some((ch, p2)) && ch == wc && p2 == p + esc_char(
                        wc,
                    ).len()) by {
                        let ec = esc_char(wc);
                        assert(s@[p as int + 1] == ec[1]);
                        if wc == '"' || wc == '\\' || wc == '\n' || wc == '\r' || wc == '\t' {
                            assert(false);
                        }
                        assert((wc as nat) < 32) by {
                            if (wc as nat) >= 32 {
                                assert(ec.len() == 1);
                            }
                        }
                        assert(ec[1] == 'u');
                        assert(s@[p as int + 2] == ec[2] && ec[2] == '0');
                        assert(s@[p as int + 3] == ec[3] && ec[3] == '0');
                        assert(s@[p as int + 4] == ec[4] && ec[4] == hex_digit(
                            ((wc as nat) / 16),
                        ));
                        assert(s@[p as int + 5] == ec[5] && ec[5] == hex_digit(
                            ((wc as nat) % 16),
                        ));
                        assert(p + 6 <= s@.len());
                        assert(u_escape_form(s@, p as int, wc));
                        assert(ec.len() == 6);
                    }
                }
                ret
            } else {
                proof {
                    assert forall|wc: char|
                        ((#[trigger] esc_char(wc)).len() >= 2 && p + esc_char(wc).len()
                            <= s@.len() && (forall|u: int|
                            0 <= u < esc_char(wc).len() ==> s@[p + u] == esc_char(wc)[u]))
                        implies false by {
                        let ec = esc_char(wc);
                        assert(s@[p as int + 1] == ec[1]);
                        if wc == '"' || wc == '\\' || wc == '\n' || wc == '\r' || wc == '\t' {
                        } else {
                            assert((wc as nat) < 32) by {
                                if (wc as nat) >= 32 {
                                    assert(ec.len() == 1);
                                }
                            }
                            assert(ec[1] == 'u');
                        }
                    }
                }
                None
            }
        },
    }
}

/// Under the canonical-text premise, the characters at the reading
/// position are the writing of the next character of `w0`, or the closing
/// quote when `w0` is exhausted.
proof fn lemma_canon_step(s: Seq<char>, i: int, w0: Seq<char>, t: int, p: int)
    requires
        0 <= i,
        i + str_lit(w0).len() <= s.len(),
        s.subrange(i, i + str_lit(w0).len()) == str_lit(w0),
        0 <= t <= w0.len(),
        p == i + 1 + esc(w0.take(t)).len(),
    ensures
        str_lit(w0).len() == esc(w0).len() + 2,
        p <= i + 1 + esc(w0).len(),
        t < w0.len() ==> p + esc_char(w0[t]).len() <= i + 1 + esc(w0).len() && (forall|u: int|
            0 <= u < esc_char(w0[t]).len() ==> s[p + u] == esc_char(w0[t])[u]),
        t == w0.len() ==> p == i + 1 + esc(w0).len() && s[p] == '"' && p + 1 == i + str_lit(
            w0,
        ).len(),
{
    lemma_esc_split(w0, t);
    assert(esc(w0).len() == esc(w0.take(t)).len() + esc(w0.skip(t)).len());
    if t < w0.len() {
        assert(w0.skip(t)[0] == w0[t]);
        assert(w0.skip(t).skip(1) =~= w0.skip(t + 1));
        assert(esc(w0.skip(t)) == esc_char(w0[t]) + esc(w0.skip(t + 1)));
        assert forall|u: int| 0 <= u < esc_char(w0[t]).len() implies s[p + u] == esc_char(
            w0[t],
        )[u] by {
            let off = p + u - i;
            assert(s[p + u] == s.subrange(i, i + str_lit(w0).len())[off]);
            assert(str_lit(w0)[off] == esc(w0)[off - 1]);
            assert(esc(w0)[off - 1] == esc(w0.skip(t))[u + esc(w0.take(t)).len() - esc(
                w0.take(t),
            ).len()]) by {
                assert(esc(w0)[esc(w0.take(t)).len() + u] == esc(w0.skip(t))[u]);
            }
            assert(esc(w0.skip(t))[u] == esc_char(w0[t])[u]);
        }
    } else {
        assert(w0.take(t) =~= w0);
        let off = p - i;
        assert(s[p] == s.subrange(i, i + str_lit(w0).len())[off]);
        assert(str_lit(w0)[off] == '"');
    }
}

/// Reads a quoted string token, undoing the escapes.
fn parse_string_tok(s: &str, i: usize) -> (r: Option<(String, usize)>)
    requires
        i <= s@.len(),
    ensures
        r matches Some((w, j)) ==> i < j <= s@.len(),
        forall|w0: Seq<char>|
            i + str_lit(w0).len() <= s@.len() && #[trigger] s@.subrange(
                i as int,
                i + str_lit(w0).len(),
            ) == str_lit(w0) ==> (r matches Some((w2, j2)) && w2@ == w0 && j2 == i + str_lit(
                w0,
            ).len()),
{
    let n = s.unicode_len();
    if i == n || s.get_char(i) != '"' {
        proof {
            assert forall|w0: Seq<char>|
                i + str_lit(w0).len() <= s@.len() && #[trigger] s@.subrange(
                    i as int,
                    i + str_lit(w0).len(),
                ) == str_lit(w0) implies false by {
                assert(s@.subrange(i as int, i + str_lit(w0).len())[0] == s@[i as int]);
                assert(str_lit(w0)[0] == '"');
            }
        }
        return None;
    }
    let mut acc = String::new();
    let mut p: usize = i + 1;
    let ghost mut t: int = 0;
    loop
        invariant
            i < p <= n,
            n == s@.len(),
            0 <= t,
            forall|w0: Seq<char>|
                (i + str_lit(w0).len() <= s@.len() && #[trigger] s@.subrange(
                    i as int,
                    i + str_lit(w0).len(),
                ) == str_lit(w0)) ==> {
                    &&& 0 <= t <= w0.len()
                    &&& acc@ == w0.take(t)
                    &&& p == i + 1 + esc(w0.take(t)).len()
                },
        decreases n - p,
    {
        if p == n {
            proof {
                assert forall|w0: Seq<char>|
                    i + str_lit(w0).len() <= s@.len() && #[trigger] s@.subrange(
                        i as int,
                        i + str_lit(w0).len(),
                    ) == str_lit(w0) implies false by {
                    lemma_canon_step(s@, i as int, w0, t, p as int);
                    if t < w0.len() {
                        assert(esc_char(w0[t]).len() >= 1);
                    }
                }
            }
            return None;
        }
        let c = s.get_char(p);
        if c == '"' {
            proof {
                assert forall|w0: Seq<char>|
                    i + str_lit(w0).len() <= s@.len() && #[trigger] s@.subrange(
                        i as int,
                        i + str_lit(w0).len(),
                    ) == str_lit(w0) implies acc@ == w0 && p + 1 == i + str_lit(w0).len() by {
                    lemma_canon_step(s@, i as int, w0, t, p as int);
                    if t < w0.len() {
                        assert(s@[p as int] == esc_char(w0[t])[0]);
                        assert(esc_char(w0[t])[0] != '"');
                        assert(false);
                    }
                    assert(acc@ =~= w0);
                }
            }
            return Some((acc, p + 1));
        }
        if c == '\\' {
            let decoded = parse_escape(s, p);
            match decoded {
                Some((ch, p2)) => {
                    push_char(&mut acc, ch);
                    proof {
                        assert forall|w0: Seq<char>|
                            (i + str_lit(w0).len() <= s@.len() && #[trigger] s@.subrange(
                                i as int,
                                i + str_lit(w0).len(),
                            ) == str_lit(w0)) implies {
                            &&& 0 <= t + 1 <= w0.len()
                            &&& acc@ == w0.take(t + 1)
                            &&& p2 == i + 1 + esc(w0.take(t + 1)).len()
                        } by {
                            lemma_canon_step(s@, i as int, w0, t, p as int);
                            if t >= w0.len() {
                                assert(s@[p as int] == '"');
                                assert(false);
                            }
                            let wc = w0[t];
                            let ec = esc_char(wc);
                            assert(s@[p as int] == ec[0]);
                            assert(ec.len() >= 2) by {
                                if !(wc == '"' || wc == '\\' || wc == '\n' || wc == '\r' || wc
                                    == '\t' || (wc as nat) < 32) {
                                    assert(ec[0] == wc);
                                    assert(false);
                                }
                            }
                            assert(p + ec.len() <= s@.len());
                            assert(ch == wc && p2 == p + ec.len());
                            lemma_esc_push(w0, t);
                            assert(acc@ =~= w0.take(t + 1));
                        }
                        t = t + 1;
                    }
                    p = p2;
                },
                None => {
                    proof {
                        assert forall|w0: Seq<char>|
                            i + str_lit(w0).len() <= s@.len() && #[trigger] s@.subrange(
                                i as int,
                                i + str_lit(w0).len(),
                            ) == str_lit(w0) implies false by {
                            lemma_canon_step(s@, i as int, w0, t, p as int);
                            if t >= w0.len() {
                                assert(s@[p as int] == '"');
                                assert(false);
                            }
                            let wc = w0[t];
                            let ec = esc_char(wc);
                            assert(s@[p as int] == ec[0]);
                            assert(ec.len() >= 2) by {
                                if !(wc == '"' || wc == '\\' || wc == '\n' || wc == '\r' || wc
                                    == '\t' || (wc as nat) < 32) {
                                    assert(ec[0] == wc);
                                    assert(false);
                                }
                            }
                            assert(p + ec.len() <= s@.len());
                        }
                    }
                    return None;
                },
            }
        } else if (c as u32) < 32 {
            proof {
                assert forall|w0: Seq<char>|
                    i + str_lit(w0).len() <= s@.len() && #[trigger] s@.subrange(
                        i as int,
                        i + str_lit(w0).len(),
                    ) == str_lit(w0) implies false by {
                    lemma_canon_step(s@, i as int, w0, t, p as int);
                    if t >= w0.len() {
                        assert(s@[p as int] == '"');
                        assert(false);
                    }
                    let wc = w0[t];
                    let ec = esc_char(wc);
                    assert(s@[p as int] == ec[0]);
                    if wc == '"' || wc == '\\' || wc == '\n' || wc == '\r' || wc == '\t' || (
                    wc as nat) < 32 {
                        assert(ec[0] == '\\');
                    } else {
                        assert(ec[0] == wc);
                        assert((s@[p as int] as nat) >= 32);
                    }
                }
            }
            return None;
        } else {
            push_char(&mut acc, c);
            proof {
                assert forall|w0: Seq<char>|
                    (i + str_lit(w0).len() <= s@.len() && #[trigger] s@.subrange(
                        i as int,
                        i + str_lit(w0).len(),
                    ) == str_lit(w0)) implies {
                    &&& 0 <= t + 1 <= w0.len()
                    &&& acc@ == w0.take(t + 1)
                    &&& p + 1 == i + 1 + esc(w0.take(t + 1)).len()
                } by {
                    lemma_canon_step(s@, i as int, w0, t, p as int);
                    if t >= w0.len() {
                        assert(s@[p as int] == '"');
                        assert(false);
                    }
                    let wc = w0[t];
                    let ec = esc_char(wc);
                    assert(s@[p as int] == ec[0]);
                    assert(ec.len() == 1 && ec[0] == wc) by {
                        if wc == '"' || wc == '\\' || wc == '\n' || wc == '\r' || wc == '\t'
                            || (wc as nat) < 32 {
                            assert(ec[0] == '\\');
                            assert(false);
                        }
                    }
                    lemma_esc_push(w0, t);
                    assert(acc@ =~= w0.take(t + 1));
                }
                t = t + 1;
            }
            p = p + 1;
        }
    }
}

/// A slice of a matched region matches the region's slice.
proof fn lemma_sub_at(s: Seq<char>, q: int, whole: Seq<char>, a: int, b: int)
    requires
        0 <= q,
        q + whole.len() <= s.len(),
        s.subrange(q, q + whole.len()) == whole,
        0 <= a <= b <= whole.len(),
    ensures
        s.subrange(q + a, q + b) == whole.subrange(a, b),
        forall|u: int| 0 <= u < whole.len() ==> s[q + u] == whole[u],
{
    assert forall|u: int| 0 <= u < whole.len() implies s[q + u] == whole[u] by {
        assert(s.subrange(q, q + whole.len())[u] == s[q + u]);
    }
    assert(s.subrange(q + a, q + b) =~= whole.subrange(a, b));
}

/// Reads a decimal index whose writing ends the canonical way.
fn parse_index(s: &str, q: usize) -> (r: Option<(usize, usize)>)
    requires
        q <= s@.len(),
    ensures
        r matches Some((v, j)) ==> q < j <= s@.len(),
        forall|k: usize|
            (q + dec_of(k as nat).len() <= s@.len() && #[trigger] s@.subrange(
                q as int,
                q + dec_of(k as nat).len(),
            ) == dec_of(k as nat) && (q + dec_of(k as nat).len() == s@.len() || !is_digit(
                s@[q + dec_of(k as nat).len()],
            ))) ==> (r matches Some((v, j)) && v == k && j == q + dec_of(k as nat).len()),
{
    let r = crate::numbers::parse_usize_at(s, q);
    proof {
        assert forall|k: usize|
            (q + dec_of(k as nat).len() <= s@.len() && #[trigger] s@.subrange(
                q as int,
                q + dec_of(k as nat).len(),
            ) == dec_of(k as nat) && (q + dec_of(k as nat).len() == s@.len() || !is_digit(
                s@[q + dec_of(k as nat).len()],
            ))) implies (r matches Some((v, j)) && v == k && j == q + dec_of(k as nat).len()) by {
            let w = dec_of(k as nat);
            crate::numbers::lemma_dec_of_digits(k as nat);
            crate::numbers::lemma_val_of_dec(k as nat);
            lemma_sub_at(s@, q as int, w, 0, w.len() as int);
            assert forall|kk: int| q <= kk < q + w.len() implies is_digit(s@[kk]) by {
                assert(s@[kk] == w[kk - q]);
            }
            crate::numbers::lemma_digits_end_run(s@, q as int, q + w.len());
            assert(s@.subrange(q as int, q + w.len()) =~= w);
            assert(val_of(s@.subrange(q as int, q + w.len())) == k);
        }
    }
    r
}

fn parse_vec3(s: &str, q: usize) -> (r: Option<(Vec3, usize)>)
    requires
        q <= s@.len(),
    ensures
        r matches Some((v, j)) ==> q < j <= s@.len() && v.wf(),
        forall|v0: Vec3V|
            (vec3_v_wf(v0) && q + ser_vec3(v0).len() <= s@.len() && #[trigger] s@.subrange(
                q as int,
                q + ser_vec3(v0).len(),
            ) == ser_vec3(v0)) ==> (r matches Some((v, j)) && v.deep_view() == v0 && j == q
                + ser_vec3(v0).len()),
{
    let n = s.unicode_len();
    if q == n || s.get_char(q) != '[' {
        proof {
            assert forall|v0: Vec3V|
                (vec3_v_wf(v0) && q + ser_vec3(v0).len() <= s@.len() && #[trigger] s@.subrange(
                    q as int,
                    q + ser_vec3(v0).len(),
                ) == ser_vec3(v0)) implies false by {
                lemma_sub_at(s@, q as int, ser_vec3(v0), 0, 0);
                assert(s@[q as int] == ser_vec3(v0)[0]);
            }
        }
        return None;
    }
    let ghost pre = |v0: Vec3V|
        vec3_v_wf(v0) && q + ser_vec3(v0).len() <= s@.len() && s@.subrange(
            q as int,
            q + ser_vec3(v0).len(),
        ) == ser_vec3(v0);
    let x = match parse_number_tok(s, q + 1) {
        Some(t) => t,
        None => {
            proof {
                assert forall|v0: Vec3V|
                    (vec3_v_wf(v0) && q + ser_vec3(v0).len() <= s@.len() && #[trigger] s@.subrange(
                        q as int,
                        q + ser_vec3(v0).len(),
                    ) == ser_vec3(v0)) implies false by {
                    vec3_canon_parts(s@, q as int, v0);
                    assert(!num_char(','));
                    assert(!num_char(']'));
                    assert(is_json_number(v0.x) && is_json_number(v0.y) && is_json_number(v0.z));
                }
            }
            return None;
        },
    };
    let p1 = x.1;
    if p1 == n || s.get_char(p1) != ',' {
        proof {
            assert forall|v0: Vec3V|
                (vec3_v_wf(v0) && q + ser_vec3(v0).len() <= s@.len() && #[trigger] s@.subrange(
                    q as int,
                    q + ser_vec3(v0).len(),
                ) == ser_vec3(v0)) implies false by {
                vec3_canon_parts(s@, q as int, v0);
                assert(!num_char(','));
                assert(!num_char(']'));
                assert(is_json_number(v0.x) && is_json_number(v0.y) && is_json_number(v0.z));
                assert(x.0@ == v0.x && x.1 == q + 1 + v0.x.len());
            }
        }
        return None;
    }
    let y = match parse_number_tok(s, p1 + 1) {
        Some(t) => t,
        None => {
            proof {
                assert forall|v0: Vec3V|
                    (vec3_v_wf(v0) && q + ser_vec3(v0).len() <= s@.len() && #[trigger] s@.subrange(
                        q as int,
                        q + ser_vec3(v0).len(),
                    ) == ser_vec3(v0)) implies false by {
                    vec3_canon_parts(s@, q as int, v0);
                    assert(!num_char(','));
                    assert(!num_char(']'));
                    assert(is_json_number(v0.x) && is_json_number(v0.y) && is_json_number(v0.z));
                    assert(x.0@ == v0.x && x.1 == q + 1 + v0.x.len());
                }
            }
            return None;
        },
    };
    let p2 = y.1;
    if p2 == n || s.get_char(p2) != ',' {
        proof {
            assert forall|v0: Vec3V|
                (vec3_v_wf(v0) && q + ser_vec3(v0).len() <= s@.len() && #[trigger] s@.subrange(
                    q as int,
                    q + ser_vec3(v0).len(),
                ) == ser_vec3(v0)) implies false by {
                vec3_canon_parts(s@, q as int, v0);
                assert(!num_char(','));
                assert(!num_char(']'));
                assert(is_json_number(v0.x) && is_json_number(v0.y) && is_json_number(v0.z));
                assert(x.0@ == v0.x && x.1 == q + 1 + v0.x.len());
                assert(y.0@ == v0.y && y.1 == p1 + 1 + v0.y.len());
            }
        }
        return None;
    }
    let z = match parse_number_tok(s, p2 + 1) {
        Some(t) => t,
        None => {
            proof {
                assert forall|v0: Vec3V|
                    (vec3_v_wf(v0) && q + ser_vec3(v0).len() <= s@.len() && #[trigger] s@.subrange(
                        q as int,
                        q + ser_vec3(v0).len(),
                    ) == ser_vec3(v0)) implies false by {
                    vec3_canon_parts(s@, q as int, v0);
                    assert(!num_char(','));
                    assert(!num_char(']'));
                    assert(is_json_number(v0.x) && is_json_number(v0.y) && is_json_number(v0.z));
                    assert(x.0@ == v0.x && x.1 == q + 1 + v0.x.len());
                    assert(y.0@ == v0.y && y.1 == p1 + 1 + v0.y.len());
                }
            }
            return None;
        },
    };
    let p3 = z.1;
    if p3 == n || s.get_char(p3) != ']' {
        proof {
            assert forall|v0: Vec3V|
                (vec3_v_wf(v0) && q + ser_vec3(v0).len() <= s@.len() && #[trigger] s@.subrange(
                    q as int,
                    q + ser_vec3(v0).len(),
                ) == ser_vec3(v0)) implies false by {
                vec3_canon_parts(s@, q as int, v0);
                assert(!num_char(','));
                assert(!num_char(']'));
                assert(is_json_number(v0.x) && is_json_number(v0.y) && is_json_number(v0.z));
                assert(x.0@ == v0.x && x.1 == q + 1 + v0.x.len());
                assert(y.0@ == v0.y && y.1 == p1 + 1 + v0.y.len());
                assert(z.0@ == v0.z && z.1 == p2 + 1 + v0.z.len());
            }
        }
        return None;
    }
    let v = Vec3 { x: x.0, y: y.0, z: z.0 };
    proof {
        assert forall|v0: Vec3V|
            (vec3_v_wf(v0) && q + ser_vec3(v0).len() <= s@.len() && #[trigger] s@.subrange(
                q as int,
                q + ser_vec3(v0).len(),
            ) == ser_vec3(v0)) implies (v.deep_view() == v0 && p3 + 1 == q + ser_vec3(
            v0,
        ).len()) by {
            vec3_canon_parts(s@, q as int, v0);
            assert(x.0@ == v0.x && x.1 == q + 1 + v0.x.len());
            assert(y.0@ == v0.y && y.1 == p1 + 1 + v0.y.len());
            assert(z.0@ == v0.z && z.1 == p2 + 1 + v0.z.len());
        }
    }
    Some((v, p3 + 1))
}

/// Under the canonical premise, each coordinate of the written triple
/// stands at its place followed by its closing mark.
proof fn vec3_canon_parts(s: Seq<char>, q: int, v0: Vec3V)
    requires
        0 <= q,
        vec3_v_wf(v0),
        q + ser_vec3(v0).len() <= s.len(),
        s.subrange(q, q + ser_vec3(v0).len()) == ser_vec3(v0),
    ensures
        s[q] == '[',
        s.subrange(q + 1, q + 1 + v0.x.len()) == v0.x,
        s[q + 1 + v0.x.len()] == ',',
        s.subrange(q + 2 + v0.x.len(), q + 2 + v0.x.len() + v0.y.len()) == v0.y,
        s[q + 2 + v0.x.len() + v0.y.len()] == ',',
        s.subrange(
            q + 3 + v0.x.len() + v0.y.len(),
            q + 3 + v0.x.len() + v0.y.len() + v0.z.len(),
        ) == v0.z,
        s[q + 3 + v0.x.len() + v0.y.len() + v0.z.len()] == ']',
        ser_vec3(v0).len() == 4 + v0.x.len() + v0.y.len() + v0.z.len(),
{
    let w = ser_vec3(v0);
    lemma_sub_at(s, q, w, 0, w.len() as int);
    assert(s.subrange(q + 1, q + 1 + v0.x.len()) =~= v0.x) by {
        assert forall|u: int|
            0 <= u < v0.x.len() implies s.subrange(q + 1, q + 1 + v0.x.len())[u] == v0.x[u] by {
            assert(s[q + (1 + u)] == w[1 + u]);
            assert(w[1 + u] == v0.x[u]);
        }
    }
    assert(s.subrange(q + 2 + v0.x.len(), q + 2 + v0.x.len() + v0.y.len()) =~= v0.y) by {
        assert forall|u: int|
            0 <= u < v0.y.len() implies s.subrange(
            q + 2 + v0.x.len(),
            q + 2 + v0.x.len() + v0.y.len(),
        )[u] == v0.y[u] by {
            assert(s[q + (2 + v0.x.len() + u)] == w[2 + v0.x.len() + u]);
            assert(w[2 + v0.x.len() + u] == v0.y[u]);
        }
    }
    assert(s.subrange(
        q + 3 + v0.x.len() + v0.y.len(),
        q + 3 + v0.x.len() + v0.y.len() + v0.z.len(),
    ) =~= v0.z) by {
        assert forall|u: int|
            0 <= u < v0.z.len() implies s.subrange(
            q + 3 + v0.x.len() + v0.y.len(),
            q + 3 + v0.x.len() + v0.y.len() + v0.z.len(),
        )[u] == v0.z[u] by {
            assert(s[q + (3 + v0.x.len() + v0.y.len() + u)] == w[3 + v0.x.len() + v0.y.len()
                + u]);
            assert(w[3 + v0.x.len() + v0.y.len() + u] == v0.z[u]);
        }
    }
    assert(s[q + 0] == w[0]);
    assert(w[0] == '[');
    assert(w[(1 + v0.x.len()) as int] == ',');
    assert(w[(2 + v0.x.len() + v0.y.len()) as int] == ',');
    assert(w[(3 + v0.x.len() + v0.y.len() + v0.z.len()) as int] == ']');
    assert(s[q + 1 + v0.x.len()] == w[(1 + v0.x.len()) as int]);
    assert(s[q + 2 + v0.x.len() + v0.y.len()] == w[(2 + v0.x.len() + v0.y.len()) as int]);
    assert(s[q + 3 + v0.x.len() + v0.y.len() + v0.z.len()] == w[(3 + v0.x.len() + v0.y.len()
        + v0.z.len()) as int]);
}

/// Under the canonical premise, each fragment of an atom's writing stands
/// at its place.
proof fn atom_canon_parts(s: Seq<char>, q: int, a0: AtomV)
    requires
        0 <= q,
        q + ser_atom(a0).len() <= s.len(),
        s.subrange(q, q + ser_atom(a0).len()) == ser_atom(a0),
    ensures
        ser_atom(a0).len() == "{\"element\":"@.len() + dec_of(a0.element as nat).len()
            + ",\"position\":"@.len() + ser_vec3(a0.position).len() + 1,
        s.subrange(q, q + "{\"element\":"@.len()) == "{\"element\":"@,
        s.subrange(
            q + "{\"element\":"@.len(),
            q + "{\"element\":"@.len() + dec_of(a0.element as nat).len(),
        ) == dec_of(a0.element as nat),
        !is_digit(s[q + "{\"element\":"@.len() + dec_of(a0.element as nat).len()]),
        s.subrange(
            q + "{\"element\":"@.len() + dec_of(a0.element as nat).len(),
            q + "{\"element\":"@.len() + dec_of(a0.element as nat).len()
                + ",\"position\":"@.len(),
        ) == ",\"position\":"@,
        s.subrange(
            q + "{\"element\":"@.len() + dec_of(a0.element as nat).len()
                + ",\"position\":"@.len(),
            q + "{\"element\":"@.len() + dec_of(a0.element as nat).len()
                + ",\"position\":"@.len() + ser_vec3(a0.position).len(),
        ) == ser_vec3(a0.position),
        s[q + ser_atom(a0).len() - 1] == '}',
{
    let w = ser_atom(a0);
    let l1 = "{\"element\":"@;
    let dec = dec_of(a0.element as nat);
    let l2 = ",\"position\":"@;
    let v3 = ser_vec3(a0.position);
    reveal_strlit("{\"element\":");
    reveal_strlit(",\"position\":");
    lemma_sub_at(s, q, w, 0, w.len() as int);
    assert(s.subrange(q, q + l1.len()) =~= l1) by {
        assert forall|u: int| 0 <= u < l1.len() implies s.subrange(q, q + l1.len())[u]
            == l1[u] by {
            assert(s[q + u] == w[u]);
            assert(w[u] == l1[u]);
        }
    }
    assert(s.subrange(q + l1.len(), q + l1.len() + dec.len()) =~= dec) by {
        assert forall|u: int|
            0 <= u < dec.len() implies s.subrange(q + l1.len(), q + l1.len() + dec.len())[u]
            == dec[u] by {
            assert(s[q + (l1.len() + u)] == w[(l1.len() + u) as int]);
            assert(w[(l1.len() + u) as int] == dec[u]);
        }
    }
    assert(s[q + l1.len() + dec.len()] == w[(l1.len() + dec.len()) as int]);
    assert(w[(l1.len() + dec.len()) as int] == l2[0]);
    assert(l2[0] == ',') by {
        reveal_strlit(",\"position\":");
    }
    assert(s.subrange(
        q + l1.len() + dec.len(),
        q + l1.len() + dec.len() + l2.len(),
    ) =~= l2) by {
        assert forall|u: int|
            0 <= u < l2.len() implies s.subrange(
            q + l1.len() + dec.len(),
            q + l1.len() + dec.len() + l2.len(),
        )[u] == l2[u] by {
            assert(s[q + (l1.len() + dec.len() + u)] == w[(l1.len() + dec.len() + u) as int]);
            assert(w[(l1.len() + dec.len() + u) as int] == l2[u]);
        }
    }
    assert(s.subrange(
        q + l1.len() + dec.len() + l2.len(),
        q + l1.len() + dec.len() + l2.len() + v3.len(),
    ) =~= v3) by {
        assert forall|u: int|
            0 <= u < v3.len() implies s.subrange(
            q + l1.len() + dec.len() + l2.len(),
            q + l1.len() + dec.len() + l2.len() + v3.len(),
        )[u] == v3[u] by {
            assert(s[q + (l1.len() + dec.len() + l2.len() + u)] == w[(l1.len() + dec.len()
                + l2.len() + u) as int]);
            assert(w[(l1.len() + dec.len() + l2.len() + u) as int] == v3[u]);
        }
    }
    assert(s[q + w.len() - 1] == w[w.len() - 1]);
    assert(w[w.len() - 1] == '}');
}

fn parse_opt_atom(s: &str, q: usize) -> (r: Option<(Option<Atom>, usize)>)
    requires
        q <= s@.len(),
    ensures
        r matches Some((o, j)) ==> q < j <= s@.len() && (o matches Some(a) ==> a.wf()),
        forall|o0: Option<AtomV>|
            ((o0 matches Some(a0) ==> atom_v_wf(a0)) && q + ser_opt_atom(o0).len() <= s@.len()
                && #[trigger] s@.subrange(q as int, q + ser_opt_atom(o0).len()) == ser_opt_atom(
                o0,
            )) ==> (r matches Some((o, j)) && o.deep_view() == o0 && j == q + ser_opt_atom(
                o0,
            ).len()),
{
    match match_lit(s, q, "null") {
        Some(j) => {
            proof {
                reveal_strlit("null");
                assert forall|o0: Option<AtomV>|
                    ((o0 matches Some(a0) ==> atom_v_wf(a0)) && q + ser_opt_atom(o0).len()
                        <= s@.len() && #[trigger] s@.subrange(
                        q as int,
                        q + ser_opt_atom(o0).len(),
                    ) == ser_opt_atom(o0)) implies o0 is None && j == q + ser_opt_atom(
                    o0,
                ).len() by {
                    match o0 {
                        Some(a0) => {
                            reveal_strlit("{\"element\":");
                            reveal_strlit("null");
                            atom_canon_parts(s@, q as int, a0);
                            assert(s@.subrange(q as int, q + "{\"element\":"@.len())[0]
                                == s@[q as int]);
                            assert(s@[q as int] == '{');
                            assert(s@.subrange(q as int, q + "null"@.len())[0] == s@[q as int]);
                            assert(false);
                        },
                        None => {},
                    }
                }
            }
            return Some((None, j));
        },
        None => {},
    }
    proof {
        assert forall|a0: AtomV|
            (atom_v_wf(a0) && q + ser_atom(a0).len() <= s@.len() && s@.subrange(
                q as int,
                q + ser_atom(a0).len(),
            ) == ser_atom(a0)) implies q + "{\"element\":"@.len() <= s@.len() && s@.subrange(
            q as int,
            q + "{\"element\":"@.len(),
        ) == "{\"element\":"@ by {
            atom_canon_parts(s@, q as int, a0);
        }
    }
    let p0 = match match_lit(s, q, "{\"element\":") {
        Some(j) => j,
        None => {
            proof {
                assert forall|o0: Option<AtomV>|
                    ((o0 matches Some(a0) ==> atom_v_wf(a0)) && q + ser_opt_atom(o0).len()
                        <= s@.len() && #[trigger] s@.subrange(
                        q as int,
                        q + ser_opt_atom(o0).len(),
                    ) == ser_opt_atom(o0)) implies false by {
                    match o0 {
                        None => {
                            reveal_strlit("null");
                        },
                        Some(a0) => {
                            reveal_strlit("{\"element\":");
                            reveal_strlit(",\"position\":");
                            atom_canon_parts(s@, q as int, a0);
                            crate::numbers::lemma_dec_of_digits(a0.element as nat);
                        },
                    }
                }
            }
            return None;
        },
    };
    let (element, p1) = match parse_index(s, p0) {
        Some(t) => t,
        None => {
            proof {
                assert forall|o0: Option<AtomV>|
                    ((o0 matches Some(a0) ==> atom_v_wf(a0)) && q + ser_opt_atom(o0).len()
                        <= s@.len() && #[trigger] s@.subrange(
                        q as int,
                        q + ser_opt_atom(o0).len(),
                    ) == ser_opt_atom(o0)) implies false by {
                    match o0 {
                        None => {
                            reveal_strlit("null");
                        },
                        Some(a0) => {
                            reveal_strlit("{\"element\":");
                            reveal_strlit(",\"position\":");
                            atom_canon_parts(s@, q as int, a0);
                            crate::numbers::lemma_dec_of_digits(a0.element as nat);
                            assert(p0 == q + "{\"element\":"@.len());
                        },
                    }
                }
            }
            return None;
        },
    };
    let p2 = match match_lit(s, p1, ",\"position\":") {
        Some(j) => j,
        None => {
            proof {
                assert forall|o0: Option<AtomV>|
                    ((o0 matches Some(a0) ==> atom_v_wf(a0)) && q + ser_opt_atom(o0).len()
                        <= s@.len() && #[trigger] s@.subrange(
                        q as int,
                        q + ser_opt_atom(o0).len(),
                    ) == ser_opt_atom(o0)) implies false by {
                    match o0 {
                        None => {
                            reveal_strlit("null");
                        },
                        Some(a0) => {
                            reveal_strlit("{\"element\":");
                            reveal_strlit(",\"position\":");
                            atom_canon_parts(s@, q as int, a0);
                            crate::numbers::lemma_dec_of_digits(a0.element as nat);
                            assert(p0 == q + "{\"element\":"@.len());
                            assert(element == a0.element && p1 == p0 + dec_of(a0.element as nat).len());
                        },
                    }
                }
            }
            return None;
        },
    };
    let (position, p3) = match parse_vec3(s, p2) {
        Some(t) => t,
        None => {
            proof {
                assert forall|o0: Option<AtomV>|
                    ((o0 matches Some(a0) ==> atom_v_wf(a0)) && q + ser_opt_atom(o0).len()
                        <= s@.len() && #[trigger] s@.subrange(
                        q as int,
                        q + ser_opt_atom(o0).len(),
                    ) == ser_opt_atom(o0)) implies false by {
                    match o0 {
                        None => {
                            reveal_strlit("null");
                        },
                        Some(a0) => {
                            reveal_strlit("{\"element\":");
                            reveal_strlit(",\"position\":");
                            atom_canon_parts(s@, q as int, a0);
                            crate::numbers::lemma_dec_of_digits(a0.element as nat);
                            assert(p0 == q + "{\"element\":"@.len());
                            assert(element == a0.element && p1 == p0 + dec_of(a0.element as nat).len());
                            assert(p2 == p1 + ",\"position\":"@.len());
                        },
                    }
                }
            }
            return None;
        },
    };
    if p3 == s.unicode_len() || s.get_char(p3) != '}' {
        proof {
            assert forall|o0: Option<AtomV>|
                ((o0 matches Some(a0) ==> atom_v_wf(a0)) && q + ser_opt_atom(o0).len()
                    <= s@.len() && #[trigger] s@.subrange(
                    q as int,
                    q + ser_opt_atom(o0).len(),
                ) == ser_opt_atom(o0)) implies false by {
                match o0 {
                    None => {
                        reveal_strlit("null");
                    },
                    Some(a0) => {
                        reveal_strlit("{\"element\":");
                        reveal_strlit(",\"position\":");
                        atom_canon_parts(s@, q as int, a0);
                        crate::numbers::lemma_dec_of_digits(a0.element as nat);
                        assert(p0 == q + "{\"element\":"@.len());
                        assert(element == a0.element && p1 == p0 + dec_of(a0.element as nat).len());
                        assert(p2 == p1 + ",\"position\":"@.len());
                        assert(position.deep_view() == a0.position && p3 == p2 + ser_vec3(a0.position).len());
                        assert(s@[p3 as int] == '}');
                        assert(p3 < s@.len());
                    },
                }
            }
        }
        return None;
    }
    proof {
        reveal_strlit("{\"element\":");
        assert forall|o0: Option<AtomV>|
            ((o0 matches Some(a0) ==> atom_v_wf(a0)) && q + ser_opt_atom(o0).len() <= s@.len()
                && #[trigger] s@.subrange(q as int, q + ser_opt_atom(o0).len()) == ser_opt_atom(
                o0,
            )) implies (Some(Atom { element, position }).deep_view() == o0 && p3 + 1 == q
            + ser_opt_atom(o0).len()) by {
            match o0 {
                Some(a0) => {
                    atom_canon_parts(s@, q as int, a0);
                    crate::numbers::lemma_dec_of_digits(a0.element as nat);
                    assert(element == a0.element && p1 == p0 + dec_of(a0.element as nat).len());
                    assert(position.deep_view() == a0.position && p3 == p2 + ser_vec3(
                        a0.position,
                    ).len());
                    assert(Atom { element, position }.deep_view() == a0);
                },
                None => {
                    reveal_strlit("null");
                    reveal_strlit("{\"element\":");
                    assert(s@.subrange(q as int, q + "null"@.len()) == "null"@);
                    assert(s@.subrange(q as int, q + "null"@.len())[0] == s@[q as int]);
                    assert(s@[q as int] == 'n');
                    assert(s@.subrange(q as int, q + "{\"element\":"@.len())[0]
                        == s@[q as int]);
                    assert(false);
                },
            }
        }
    }
    Some((Some(Atom { element, position }), p3 + 1))
}


/// Under the canonical premise, each fragment of a table entry's writing
/// stands at its place.
proof fn atom_entry_canon(s: Seq<char>, p: int, e0: (usize, Option<AtomV>))
    requires
        0 <= p,
        p + ser_atom_entry(e0).len() <= s.len(),
        s.subrange(p, p + ser_atom_entry(e0).len()) == ser_atom_entry(e0),
    ensures
        ser_atom_entry(e0).len() == 1 + dec_of(e0.0 as nat).len() + "\":"@.len()
            + ser_opt_atom(e0.1).len(),
        s[p] == '"',
        s.subrange(p + 1, p + 1 + dec_of(e0.0 as nat).len()) == dec_of(e0.0 as nat),
        !is_digit(s[p + 1 + dec_of(e0.0 as nat).len()]),
        s.subrange(
            p + 1 + dec_of(e0.0 as nat).len(),
            p + 1 + dec_of(e0.0 as nat).len() + "\":"@.len(),
        ) == "\":"@,
        s.subrange(
            p + 1 + dec_of(e0.0 as nat).len() + "\":"@.len(),
            p + 1 + dec_of(e0.0 as nat).len() + "\":"@.len() + ser_opt_atom(e0.1).len(),
        ) == ser_opt_atom(e0.1),
{
    let w = ser_atom_entry(e0);
    let dec = dec_of(e0.0 as nat);
    let l1 = "\":"@;
    let opt = ser_opt_atom(e0.1);
    reveal_strlit("\":");
    lemma_sub_at(s, p, w, 0, w.len() as int);
    assert(s[p] == w[0]);
    assert(w[0] == '"');
    assert(s.subrange(p + 1, p + 1 + dec.len()) =~= dec) by {
        assert forall|u: int| 0 <= u < dec.len() implies s.subrange(p + 1, p + 1 + dec.len())[u]
            == dec[u] by {
            assert(s[p + (1 + u)] == w[1 + u]);
            assert(w[1 + u] == dec[u]);
        }
    }
    assert(s[p + 1 + dec.len()] == w[(1 + dec.len()) as int]);
    assert(w[(1 + dec.len()) as int] == l1[0]);
    assert(s.subrange(p + 1 + dec.len(), p + 1 + dec.len() + l1.len()) =~= l1) by {
        assert forall|u: int|
            0 <= u < l1.len() implies s.subrange(
            p + 1 + dec.len(),
            p + 1 + dec.len() + l1.len(),
        )[u] == l1[u] by {
            assert(s[p + (1 + dec.len() + u)] == w[(1 + dec.len() + u) as int]);
            assert(w[(1 + dec.len() + u) as int] == l1[u]);
        }
    }
    assert(s.subrange(
        p + 1 + dec.len() + l1.len(),
        p + 1 + dec.len() + l1.len() + opt.len(),
    ) =~= opt) by {
        assert forall|u: int|
            0 <= u < opt.len() implies s.subrange(
            p + 1 + dec.len() + l1.len(),
            p + 1 + dec.len() + l1.len() + opt.len(),
        )[u] == opt[u] by {
            assert(s[p + (1 + dec.len() + l1.len() + u)] == w[(1 + dec.len() + l1.len()
                + u) as int]);
            assert(w[(1 + dec.len() + l1.len() + u) as int] == opt[u]);
        }
    }
}

/// Reads one atom-table entry: a quoted decimal index, a colon, and the
/// optional atom.
fn parse_atom_entry(s: &str, p: usize) -> (r: Option<((usize, Option<Atom>), usize)>)
    requires
        p <= s@.len(),
    ensures
        r matches Some((e, j)) ==> p < j <= s@.len() && (e.1 matches Some(a) ==> a.wf()),
        forall|e0: (usize, Option<AtomV>)|
            ((e0.1 matches Some(a0) ==> atom_v_wf(a0)) && p + ser_atom_entry(e0).len()
                <= s@.len() && #[trigger] s@.subrange(p as int, p + ser_atom_entry(e0).len())
                == ser_atom_entry(e0)) ==> (r matches Some((e, j)) && e.0 == e0.0
                && e.1.deep_view() == e0.1 && j == p + ser_atom_entry(e0).len()),
{
    let n = s.unicode_len();
    if p == n || s.get_char(p) != '"' {
        proof {
            assert forall|e0: (usize, Option<AtomV>)|
                ((e0.1 matches Some(a0) ==> atom_v_wf(a0)) && p + ser_atom_entry(e0).len()
                    <= s@.len() && #[trigger] s@.subrange(p as int, p + ser_atom_entry(e0).len())
                    == ser_atom_entry(e0)) implies false by {
                atom_entry_canon(s@, p as int, e0);
            }
        }
        return None;
    }
    let (key, p1) = match parse_index(s, p + 1) {
        Some(t) => t,
        None => {
            proof {
                assert forall|e0: (usize, Option<AtomV>)|
                    ((e0.1 matches Some(a0) ==> atom_v_wf(a0)) && p + ser_atom_entry(e0).len()
                        <= s@.len() && #[trigger] s@.subrange(
                        p as int,
                        p + ser_atom_entry(e0).len(),
                    ) == ser_atom_entry(e0)) implies false by {
                    atom_entry_canon(s@, p as int, e0);
                    crate::numbers::lemma_dec_of_digits(e0.0 as nat);
                }
            }
            return None;
        },
    };
    let p2 = match match_lit(s, p1, "\":") {
        Some(j) => j,
        None => {
            proof {
                assert forall|e0: (usize, Option<AtomV>)|
                    ((e0.1 matches Some(a0) ==> atom_v_wf(a0)) && p + ser_atom_entry(e0).len()
                        <= s@.len() && #[trigger] s@.subrange(
                        p as int,
                        p + ser_atom_entry(e0).len(),
                    ) == ser_atom_entry(e0)) implies false by {
                    atom_entry_canon(s@, p as int, e0);
                    crate::numbers::lemma_dec_of_digits(e0.0 as nat);
                    assert(key == e0.0 && p1 == p + 1 + dec_of(e0.0 as nat).len());
                }
            }
            return None;
        },
    };
    let (value, p3) = match parse_opt_atom(s, p2) {
        Some(t) => t,
        None => {
            proof {
                assert forall|e0: (usize, Option<AtomV>)|
                    ((e0.1 matches Some(a0) ==> atom_v_wf(a0)) && p + ser_atom_entry(e0).len()
                        <= s@.len() && #[trigger] s@.subrange(
                        p as int,
                        p + ser_atom_entry(e0).len(),
                    ) == ser_atom_entry(e0)) implies false by {
                    atom_entry_canon(s@, p as int, e0);
                    crate::numbers::lemma_dec_of_digits(e0.0 as nat);
                    assert(key == e0.0 && p1 == p + 1 + dec_of(e0.0 as nat).len());
                    assert(p2 == p1 + "\":"@.len());
                }
            }
            return None;
        },
    };
    proof {
        assert forall|e0: (usize, Option<AtomV>)|
            ((e0.1 matches Some(a0) ==> atom_v_wf(a0)) && p + ser_atom_entry(e0).len()
                <= s@.len() && #[trigger] s@.subrange(p as int, p + ser_atom_entry(e0).len())
                == ser_atom_entry(e0)) implies (key == e0.0 && value.deep_view() == e0.1 && p3
            == p + ser_atom_entry(e0).len()) by {
            atom_entry_canon(s@, p as int, e0);
            crate::numbers::lemma_dec_of_digits(e0.0 as nat);
            assert(key == e0.0 && p1 == p + 1 + dec_of(e0.0 as nat).len());
            assert(p2 == p1 + "\":"@.len());
            assert(value.deep_view() == e0.1 && p3 == p2 + ser_opt_atom(e0.1).len());
        }
    }
    Some(((key, value), p3))
}

/// Under the canonical premise, each fragment of an edge entry's writing
/// stands at its place.
proof fn bond_entry_canon(s: Seq<char>, p: int, e0: (Pair, Option<Seq<char>>))
    requires
        0 <= p,
        p + ser_bond_entry(e0).len() <= s.len(),
        s.subrange(p, p + ser_bond_entry(e0).len()) == ser_bond_entry(e0),
    ensures
        ser_bond_entry(e0).len() == 3 + dec_of(e0.0.lo() as nat).len() + dec_of(
            e0.0.hi() as nat,
        ).len() + 1 + ser_opt_num(e0.1).len(),
        s[p] == '"',
        s.subrange(p + 1, p + 1 + dec_of(e0.0.lo() as nat).len()) == dec_of(e0.0.lo() as nat),
        s[p + 1 + dec_of(e0.0.lo() as nat).len()] == ',',
        s.subrange(
            p + 2 + dec_of(e0.0.lo() as nat).len(),
            p + 2 + dec_of(e0.0.lo() as nat).len() + dec_of(e0.0.hi() as nat).len(),
        ) == dec_of(e0.0.hi() as nat),
        s[p + 2 + dec_of(e0.0.lo() as nat).len() + dec_of(e0.0.hi() as nat).len()] == '"',
        s[p + 3 + dec_of(e0.0.lo() as nat).len() + dec_of(e0.0.hi() as nat).len()] == ':',
        s.subrange(
            p + 4 + dec_of(e0.0.lo() as nat).len() + dec_of(e0.0.hi() as nat).len(),
            p + 4 + dec_of(e0.0.lo() as nat).len() + dec_of(e0.0.hi() as nat).len()
                + ser_opt_num(e0.1).len(),
        ) == ser_opt_num(e0.1),
{
    let w = ser_bond_entry(e0);
    let dl = dec_of(e0.0.lo() as nat);
    let dh = dec_of(e0.0.hi() as nat);
    let ov = ser_opt_num(e0.1);
    lemma_sub_at(s, p, w, 0, w.len() as int);
    assert(s[p] == w[0]);
    assert(w[0] == '"');
    assert(s.subrange(p + 1, p + 1 + dl.len()) =~= dl) by {
        assert forall|u: int| 0 <= u < dl.len() implies s.subrange(p + 1, p + 1 + dl.len())[u]
            == dl[u] by {
            assert(s[p + (1 + u)] == w[1 + u]);
            assert(w[1 + u] == dl[u]);
        }
    }
    assert(s[p + 1 + dl.len()] == w[(1 + dl.len()) as int]);
    assert(w[(1 + dl.len()) as int] == ',');
    assert(s.subrange(p + 2 + dl.len(), p + 2 + dl.len() + dh.len()) =~= dh) by {
        assert forall|u: int|
            0 <= u < dh.len() implies s.subrange(p + 2 + dl.len(), p + 2 + dl.len() + dh.len())[u]
            == dh[u] by {
            assert(s[p + (2 + dl.len() + u)] == w[(2 + dl.len() + u) as int]);
            assert(w[(2 + dl.len() + u) as int] == dh[u]);
        }
    }
    assert(s[p + 2 + dl.len() + dh.len()] == w[(2 + dl.len() + dh.len()) as int]);
    assert(w[(2 + dl.len() + dh.len()) as int] == '"');
    assert(s[p + 3 + dl.len() + dh.len()] == w[(3 + dl.len() + dh.len()) as int]);
    assert(w[(3 + dl.len() + dh.len()) as int] == ':');
    assert(s.subrange(
        p + 4 + dl.len() + dh.len(),
        p + 4 + dl.len() + dh.len() + ov.len(),
    ) =~= ov) by {
        assert forall|u: int|
            0 <= u < ov.len() implies s.subrange(
            p + 4 + dl.len() + dh.len(),
            p + 4 + dl.len() + dh.len() + ov.len(),
        )[u] == ov[u] by {
            assert(s[p + (4 + dl.len() + dh.len() + u)] == w[(4 + dl.len() + dh.len()
                + u) as int]);
            assert(w[(4 + dl.len() + dh.len() + u) as int] == ov[u]);
        }
    }
}

/// Reads one edge entry: a quoted pair of decimal indices, a colon, and
/// the optional order.
#[verifier::rlimit(80)]
fn parse_bond_entry(s: &str, p: usize) -> (r: Option<((Pair, Option<String>), usize)>)
    requires
        p <= s@.len(),
    ensures
        r matches Some((e, j)) ==> p < j <= s@.len() && crate::molecule::bond_key_wf(e.0) && (
        e.1 matches Some(w) ==> is_json_number(w@)),
        forall|e0: (Pair, Option<Seq<char>>)|
            (crate::molecule::bond_entry_wf(e0) && p + ser_bond_entry(e0).len() <= s@.len()
                && #[trigger] s@.subrange(p as int, p + ser_bond_entry(e0).len())
                == ser_bond_entry(e0) && (p + ser_bond_entry(e0).len() == s@.len() || !num_char(
                s@[p + ser_bond_entry(e0).len()],
            ))) ==> (r matches Some((e, j)) && e.0 == e0.0 && e.1.deep_view() == e0.1 && j == p
                + ser_bond_entry(e0).len()),
{
    let n = s.unicode_len();
    if p == n || s.get_char(p) != '"' {
        proof {
            assert forall|e0: (Pair, Option<Seq<char>>)|
                (crate::molecule::bond_entry_wf(e0) && p + ser_bond_entry(e0).len() <= s@.len()
                    && #[trigger] s@.subrange(p as int, p + ser_bond_entry(e0).len())
                    == ser_bond_entry(e0) && (p + ser_bond_entry(e0).len() == s@.len()
                    || !num_char(s@[p + ser_bond_entry(e0).len()]))) implies false by {
                bond_entry_canon(s@, p as int, e0);
            }
        }
        return None;
    }
    let (lo, p1) = match parse_index(s, p + 1) {
        Some(t) => t,
        None => {
            proof {
                assert forall|e0: (Pair, Option<Seq<char>>)|
                    (crate::molecule::bond_entry_wf(e0) && p + ser_bond_entry(e0).len()
                        <= s@.len() && #[trigger] s@.subrange(
                        p as int,
                        p + ser_bond_entry(e0).len(),
                    ) == ser_bond_entry(e0) && (p + ser_bond_entry(e0).len() == s@.len()
                        || !num_char(s@[p + ser_bond_entry(e0).len()]))) implies false by {
                    bond_entry_canon(s@, p as int, e0);
                    crate::numbers::lemma_dec_of_digits(e0.0.lo() as nat);
                }
            }
            return None;
        },
    };
    if p1 == n || s.get_char(p1) != ',' {
        proof {
            assert forall|e0: (Pair, Option<Seq<char>>)|
                (crate::molecule::bond_entry_wf(e0) && p + ser_bond_entry(e0).len() <= s@.len()
                    && #[trigger] s@.subrange(p as int, p + ser_bond_entry(e0).len())
                    == ser_bond_entry(e0) && (p + ser_bond_entry(e0).len() == s@.len()
                    || !num_char(s@[p + ser_bond_entry(e0).len()]))) implies false by {
                bond_entry_canon(s@, p as int, e0);
                crate::numbers::lemma_dec_of_digits(e0.0.lo() as nat);
                assert(lo == e0.0.lo() && p1 == p + 1 + dec_of(e0.0.lo() as nat).len());
            }
        }
        return None;
    }
    let (hi, p2) = match parse_index(s, p1 + 1) {
        Some(t) => t,
        None => {
            proof {
                assert forall|e0: (Pair, Option<Seq<char>>)|
                    (crate::molecule::bond_entry_wf(e0) && p + ser_bond_entry(e0).len()
                        <= s@.len() && #[trigger] s@.subrange(
                        p as int,
                        p + ser_bond_entry(e0).len(),
                    ) == ser_bond_entry(e0) && (p + ser_bond_entry(e0).len() == s@.len()
                        || !num_char(s@[p + ser_bond_entry(e0).len()]))) implies false by {
                    bond_entry_canon(s@, p as int, e0);
                    crate::numbers::lemma_dec_of_digits(e0.0.lo() as nat);
                    crate::numbers::lemma_dec_of_digits(e0.0.hi() as nat);
                    assert(lo == e0.0.lo() && p1 == p + 1 + dec_of(e0.0.lo() as nat).len());
                }
            }
            return None;
        },
    };
    if !(lo < hi) {
        proof {
            assert forall|e0: (Pair, Option<Seq<char>>)|
                (crate::molecule::bond_entry_wf(e0) && p + ser_bond_entry(e0).len() <= s@.len()
                    && #[trigger] s@.subrange(p as int, p + ser_bond_entry(e0).len())
                    == ser_bond_entry(e0) && (p + ser_bond_entry(e0).len() == s@.len()
                    || !num_char(s@[p + ser_bond_entry(e0).len()]))) implies false by {
                bond_entry_canon(s@, p as int, e0);
                crate::numbers::lemma_dec_of_digits(e0.0.lo() as nat);
                crate::numbers::lemma_dec_of_digits(e0.0.hi() as nat);
                assert(lo == e0.0.lo() && p1 == p + 1 + dec_of(e0.0.lo() as nat).len());
                assert(hi == e0.0.hi() && p2 == p1 + 1 + dec_of(e0.0.hi() as nat).len());
            }
        }
        return None;
    }
    let p3 = match match_lit(s, p2, "\":") {
        Some(j) => j,
        None => {
            proof {
                reveal_strlit("\":");
                assert forall|e0: (Pair, Option<Seq<char>>)|
                    (crate::molecule::bond_entry_wf(e0) && p + ser_bond_entry(e0).len()
                        <= s@.len() && #[trigger] s@.subrange(
                        p as int,
                        p + ser_bond_entry(e0).len(),
                    ) == ser_bond_entry(e0) && (p + ser_bond_entry(e0).len() == s@.len()
                        || !num_char(s@[p + ser_bond_entry(e0).len()]))) implies false by {
                    bond_entry_canon(s@, p as int, e0);
                    crate::numbers::lemma_dec_of_digits(e0.0.lo() as nat);
                    crate::numbers::lemma_dec_of_digits(e0.0.hi() as nat);
                    assert(lo == e0.0.lo() && p1 == p + 1 + dec_of(e0.0.lo() as nat).len());
                    assert(hi == e0.0.hi() && p2 == p1 + 1 + dec_of(e0.0.hi() as nat).len());
                    assert(s@.subrange(p2 as int, p2 + 2) =~= "\":"@) by {
                        assert(s@[p2 as int] == '"');
                        assert(s@[p2 as int + 1] == ':');
                    }
                }
            }
            return None;
        },
    };
    proof {
        reveal_strlit("\":");
    }
    let parsed: (Option<String>, usize) = match match_lit(s, p3, "null") {
        Some(j) => (None, j),
        None => {
            match parse_number_tok(s, p3) {
                Some((w, j)) => (Some(w), j),
                None => {
                    proof {
                        assert forall|e0: (Pair, Option<Seq<char>>)|
                            (crate::molecule::bond_entry_wf(e0) && p + ser_bond_entry(e0).len()
                                <= s@.len() && #[trigger] s@.subrange(
                                p as int,
                                p + ser_bond_entry(e0).len(),
                            ) == ser_bond_entry(e0) && (p + ser_bond_entry(e0).len() == s@.len()
                                || !num_char(s@[p + ser_bond_entry(e0).len()]))) implies false by {
                            bond_entry_canon(s@, p as int, e0);
                            crate::numbers::lemma_dec_of_digits(e0.0.lo() as nat);
                            crate::numbers::lemma_dec_of_digits(e0.0.hi() as nat);
                            assert(lo == e0.0.lo() && p1 == p + 1 + dec_of(
                                e0.0.lo() as nat,
                            ).len());
                            assert(hi == e0.0.hi() && p2 == p1 + 1 + dec_of(
                                e0.0.hi() as nat,
                            ).len());
                            assert(p3 == p2 + "\":"@.len());
                            reveal_strlit("null");
                            match e0.1 {
                                None => {
                                    assert(s@.subrange(p3 as int, p3 + "null"@.len())
                                        == "null"@);
                                },
                                Some(w0) => {
                                    crate::numbers::lemma_number_chars(w0);
                                    assert(s@.subrange(p3 as int, p3 + w0.len()) == w0);
                                },
                            }
                        }
                    }
                    return None;
                },
            }
        },
    };
    let (value, p4) = parsed;
    proof {
        reveal_strlit("null");
        assert forall|e0: (Pair, Option<Seq<char>>)|
            (crate::molecule::bond_entry_wf(e0) && p + ser_bond_entry(e0).len() <= s@.len()
                && #[trigger] s@.subrange(p as int, p + ser_bond_entry(e0).len())
                == ser_bond_entry(e0) && (p + ser_bond_entry(e0).len() == s@.len() || !num_char(
                s@[p + ser_bond_entry(e0).len()],
            ))) implies (Pair::new_spec(lo, hi) == e0.0 && value.deep_view() == e0.1 && p4 == p
            + ser_bond_entry(e0).len()) by {
            bond_entry_canon(s@, p as int, e0);
            crate::numbers::lemma_dec_of_digits(e0.0.lo() as nat);
            crate::numbers::lemma_dec_of_digits(e0.0.hi() as nat);
            assert(lo == e0.0.lo() && p1 == p + 1 + dec_of(e0.0.lo() as nat).len());
            assert(hi == e0.0.hi() && p2 == p1 + 1 + dec_of(e0.0.hi() as nat).len());
            assert(p3 == p2 + "\":"@.len());
            match e0.1 {
                None => {
                    assert(s@.subrange(p3 as int, p3 + "null"@.len()) == "null"@);
                    assert(value is None && p4 == p3 + "null"@.len());
                },
                Some(w0) => {
                    crate::numbers::lemma_number_chars(w0);
                    assert(s@.subrange(p3 as int, p3 + w0.len()) == w0);
                    assert(value matches Some(wv) && wv@ == w0 && p4 == p3 + w0.len());
                },
            }
            assert(e0.0 == Pair::new_spec(lo, hi));
        }
    }
    Some(((Pair::new(lo, hi), value), p4))
}

/// Under the canonical premise, each fragment of a group entry's writing
/// stands at its place.
proof fn group_entry_canon(s: Seq<char>, p: int, e0: (usize, Seq<char>))
    requires
        0 <= p,
        p + ser_group_entry(e0).len() <= s.len(),
        s.subrange(p, p + ser_group_entry(e0).len()) == ser_group_entry(e0),
    ensures
        ser_group_entry(e0).len() == 2 + dec_of(e0.0 as nat).len() + str_lit(e0.1).len() + 1,
        s[p] == '[',
        s.subrange(p + 1, p + 1 + dec_of(e0.0 as nat).len()) == dec_of(e0.0 as nat),
        s[p + 1 + dec_of(e0.0 as nat).len()] == ',',
        s.subrange(
            p + 2 + dec_of(e0.0 as nat).len(),
            p + 2 + dec_of(e0.0 as nat).len() + str_lit(e0.1).len(),
        ) == str_lit(e0.1),
        s[p + 2 + dec_of(e0.0 as nat).len() + str_lit(e0.1).len()] == ']',
{
    let w = ser_group_entry(e0);
    let dec = dec_of(e0.0 as nat);
    let sl = str_lit(e0.1);
    lemma_sub_at(s, p, w, 0, w.len() as int);
    assert(s[p] == w[0]);
    assert(w[0] == '[');
    assert(s.subrange(p + 1, p + 1 + dec.len()) =~= dec) by {
        assert forall|u: int| 0 <= u < dec.len() implies s.subrange(p + 1, p + 1 + dec.len())[u]
            == dec[u] by {
            assert(s[p + (1 + u)] == w[1 + u]);
            assert(w[1 + u] == dec[u]);
        }
    }
    assert(s[p + 1 + dec.len()] == w[(1 + dec.len()) as int]);
    assert(w[(1 + dec.len()) as int] == ',');
    assert(s.subrange(p + 2 + dec.len(), p + 2 + dec.len() + sl.len()) =~= sl) by {
        assert forall|u: int|
            0 <= u < sl.len() implies s.subrange(p + 2 + dec.len(), p + 2 + dec.len() + sl.len())[u]
            == sl[u] by {
            assert(s[p + (2 + dec.len() + u)] == w[(2 + dec.len() + u) as int]);
            assert(w[(2 + dec.len() + u) as int] == sl[u]);
        }
    }
    assert(s[p + 2 + dec.len() + sl.len()] == w[(2 + dec.len() + sl.len()) as int]);
    assert(w[(2 + dec.len() + sl.len()) as int] == ']');
}

/// Reads one group entry: an index and a quoted tag between brackets.
#[verifier::rlimit(60)]
fn parse_group_entry(s: &str, p: usize) -> (r: Option<((usize, String), usize)>)
    requires
        p <= s@.len(),
    ensures
        r matches Some((e, j)) ==> p < j <= s@.len(),
        forall|e0: (usize, Seq<char>)|
            (p + ser_group_entry(e0).len() <= s@.len() && #[trigger] s@.subrange(
                p as int,
                p + ser_group_entry(e0).len(),
            ) == ser_group_entry(e0)) ==> (r matches Some((e, j)) && e.0 == e0.0 && e.1@ == e0.1
                && j == p + ser_group_entry(e0).len()),
{
    let n = s.unicode_len();
    if p == n || s.get_char(p) != '[' {
        proof {
            assert forall|e0: (usize, Seq<char>)|
                (p + ser_group_entry(e0).len() <= s@.len() && #[trigger] s@.subrange(
                    p as int,
                    p + ser_group_entry(e0).len(),
                ) == ser_group_entry(e0)) implies false by {
                group_entry_canon(s@, p as int, e0);
            }
        }
        return None;
    }
    let (idx, p1) = match parse_index(s, p + 1) {
        Some(t) => t,
        None => {
            proof {
                assert forall|e0: (usize, Seq<char>)|
                    (p + ser_group_entry(e0).len() <= s@.len() && #[trigger] s@.subrange(
                        p as int,
                        p + ser_group_entry(e0).len(),
                    ) == ser_group_entry(e0)) implies false by {
                    group_entry_canon(s@, p as int, e0);
                    crate::numbers::lemma_dec_of_digits(e0.0 as nat);
                }
            }
            return None;
        },
    };
    if p1 == n || s.get_char(p1) != ',' {
        proof {
            assert forall|e0: (usize, Seq<char>)|
                (p + ser_group_entry(e0).len() <= s@.len() && #[trigger] s@.subrange(
                    p as int,
                    p + ser_group_entry(e0).len(),
                ) == ser_group_entry(e0)) implies false by {
                group_entry_canon(s@, p as int, e0);
                crate::numbers::lemma_dec_of_digits(e0.0 as nat);
                assert(idx == e0.0 && p1 == p + 1 + dec_of(e0.0 as nat).len());
            }
        }
        return None;
    }
    let (tag, p2) = match parse_string_tok(s, p1 + 1) {
        Some(t) => t,
        None => {
            proof {
                assert forall|e0: (usize, Seq<char>)|
                    (p + ser_group_entry(e0).len() <= s@.len() && #[trigger] s@.subrange(
                        p as int,
                        p + ser_group_entry(e0).len(),
                    ) == ser_group_entry(e0)) implies false by {
                    group_entry_canon(s@, p as int, e0);
                    crate::numbers::lemma_dec_of_digits(e0.0 as nat);
                    assert(idx == e0.0 && p1 == p + 1 + dec_of(e0.0 as nat).len());
                }
            }
            return None;
        },
    };
    if p2 == n || s.get_char(p2) != ']' {
        proof {
            assert forall|e0: (usize, Seq<char>)|
                (p + ser_group_entry(e0).len() <= s@.len() && #[trigger] s@.subrange(
                    p as int,
                    p + ser_group_entry(e0).len(),
                ) == ser_group_entry(e0)) implies false by {
                group_entry_canon(s@, p as int, e0);
                crate::numbers::lemma_dec_of_digits(e0.0 as nat);
                assert(idx == e0.0 && p1 == p + 1 + dec_of(e0.0 as nat).len());
                assert(tag@ == e0.1 && p2 == p1 + 1 + str_lit(e0.1).len());
            }
        }
        return None;
    }
    proof {
        assert forall|e0: (usize, Seq<char>)|
            (p + ser_group_entry(e0).len() <= s@.len() && #[trigger] s@.subrange(
                p as int,
                p + ser_group_entry(e0).len(),
            ) == ser_group_entry(e0)) implies (idx == e0.0 && tag@ == e0.1 && p2 + 1 == p
            + ser_group_entry(e0).len()) by {
            group_entry_canon(s@, p as int, e0);
            crate::numbers::lemma_dec_of_digits(e0.0 as nat);
            assert(idx == e0.0 && p1 == p + 1 + dec_of(e0.0 as nat).len());
            assert(tag@ == e0.1 && p2 == p1 + 1 + str_lit(e0.1).len());
        }
    }
    Some(((idx, tag), p2 + 1))
}

/// The text at `q` is the atoms section: the entries between braces.
pub open spec fn atoms_section_form(s: Seq<char>, q: int, es: Seq<(usize, Option<AtomV>)>) -> bool {
    &&& atom_entries_wf(es)
    &&& 0 <= q
    &&& q + 2 + ser_atom_list(es).len() <= s.len()
    &&& s.subrange(q, q + 2 + ser_atom_list(es).len()) == seq!['{'] + ser_atom_list(es)
        + seq!['}']
}

proof fn atoms_section_canon(s: Seq<char>, q: int, es: Seq<(usize, Option<AtomV>)>)
    requires
        atoms_section_form(s, q, es),
    ensures
        s[q] == '{',
        s[q + 1 + ser_atom_list(es).len()] == '}',
        s.subrange(q + 1, q + 1 + ser_atom_list(es).len()) == ser_atom_list(es),
{
    let l = ser_atom_list(es);
    let w = seq!['{'] + l + seq!['}'];
    lemma_sub_at(s, q, w, 0, w.len() as int);
    assert(s[q] == w[0]);
    assert(s[q + 1 + l.len()] == w[(1 + l.len()) as int]);
    assert(s.subrange(q + 1, q + 1 + l.len()) =~= l) by {
        assert forall|u: int| 0 <= u < l.len() implies s.subrange(q + 1, q + 1 + l.len())[u]
            == l[u] by {
            assert(s[q + (1 + u)] == w[1 + u]);
            assert(w[1 + u] == l[u]);
        }
    }
}

/// A nonempty entry listing's writing starts with its first entry's
/// writing, followed by a comma where more entries follow.
proof fn atom_list_suffix_head(s: Seq<char>, a: int, rest: Seq<(usize, Option<AtomV>)>)
    requires
        rest.len() > 0,
        0 <= a,
        a + ser_atom_list(rest).len() <= s.len(),
        s.subrange(a, a + ser_atom_list(rest).len()) == ser_atom_list(rest),
    ensures
        a + ser_atom_entry(rest[0]).len() <= s.len(),
        s.subrange(a, a + ser_atom_entry(rest[0]).len()) == ser_atom_entry(rest[0]),
        rest.len() == 1 ==> ser_atom_list(rest).len() == ser_atom_entry(rest[0]).len(),
        rest.len() > 1 ==> s[a + ser_atom_entry(rest[0]).len()] == ',',
        rest.len() > 1 ==> ser_atom_list(rest).len() == ser_atom_entry(rest[0]).len() + 1
            + ser_atom_list(rest.skip(1)).len(),
        rest.len() > 1 ==> s.subrange(
            a + ser_atom_entry(rest[0]).len() + 1,
            a + ser_atom_list(rest).len(),
        ) == ser_atom_list(rest.skip(1)),
{
    let l = ser_atom_list(rest);
    let e = ser_atom_entry(rest[0]);
    lemma_sub_at(s, a, l, 0, l.len() as int);
    if rest.len() == 1 {
        assert(l == e);
        assert(s.subrange(a, a + e.len()) == l);
    } else {
        let tail = ser_atom_list(rest.skip(1));
        assert(l == e + seq![','] + tail);
        assert(s.subrange(a, a + e.len()) =~= e) by {
            assert forall|u: int| 0 <= u < e.len() implies s.subrange(a, a + e.len())[u]
                == e[u] by {
                assert(s[a + u] == l[u]);
                assert(l[u] == e[u]);
            }
        }
        assert(s[a + e.len()] == l[e.len() as int]);
        assert(l[e.len() as int] == ',');
        assert(s.subrange(a + e.len() + 1, a + l.len()) =~= tail) by {
            assert forall|u: int|
                0 <= u < tail.len() implies s.subrange(a + e.len() + 1, a + l.len())[u]
                == tail[u] by {
                assert(s[a + (e.len() + 1 + u)] == l[(e.len() + 1 + u) as int]);
                assert(l[(e.len() + 1 + u) as int] == tail[u]);
            }
        }
    }
}

/// Reads the atom table: entries between `{` and `}`, later entries
/// overriding earlier ones on a repeated index.
#[verifier::rlimit(80)]
fn parse_atoms(s: &str, q: usize) -> (r: Option<(AtomTable, usize)>)
    requires
        q <= s@.len(),
    ensures
        r matches Some((t, j)) ==> q < j <= s@.len() && t.wf(),
        forall|es: Seq<(usize, Option<AtomV>)>|
            #[trigger] atoms_section_form(s@, q as int, es) ==> (r matches Some((t, j))
                && t.deep_view() == es && j == q + 2 + ser_atom_list(es).len()),
{
    let n = s.unicode_len();
    if q == n || s.get_char(q) != '{' {
        proof {
            assert forall|es: Seq<(usize, Option<AtomV>)>|
                #[trigger] atoms_section_form(s@, q as int, es) implies false by {
                atoms_section_canon(s@, q as int, es);
            }
        }
        return None;
    }
    let mut table = AtomTable::new();
    let mut p = q + 1;
    if p < n && s.get_char(p) == '}' {
        proof {
            assert forall|es: Seq<(usize, Option<AtomV>)>|
                #[trigger] atoms_section_form(s@, q as int, es) implies (table.deep_view() == es
                && p + 1 == q + 2 + ser_atom_list(es).len()) by {
                atoms_section_canon(s@, q as int, es);
                if es.len() > 0 {
                    atom_list_suffix_head(s@, q + 1, es);
                    atom_entry_canon(s@, q + 1, es[0]);
                    assert(s@[q as int + 1] == '"');
                    assert(false);
                }
                assert(ser_atom_list(es).len() == 0);
                assert(table.deep_view() =~= es);
            }
        }
        return Some((table, p + 1));
    }
    let ghost mut k: int = 0;
    proof {
        assert forall|es: Seq<(usize, Option<AtomV>)>|
            #[trigger] atoms_section_form(s@, q as int, es) implies {
            &&& k < es.len()
            &&& table.deep_view() == es.take(k)
            &&& p == q + 1 + ser_atom_list(es).len() - ser_atom_list(es.skip(k)).len()
            &&& s@.subrange(p as int, p + ser_atom_list(es.skip(k)).len()) == ser_atom_list(
                es.skip(k),
            )
        } by {
            atoms_section_canon(s@, q as int, es);
            if es.len() == 0 {
                assert(ser_atom_list(es).len() == 0);
                assert(s@[q as int + 1] == '}');
                assert(q + 1 < s@.len());
                assert(false);
            }
            assert(es.skip(0) =~= es);
            assert(table.deep_view() =~= es.take(0));
        }
    }
    loop
        invariant
            q < p <= n,
            n == s@.len(),
            table.wf(),
            0 <= k,
            forall|es: Seq<(usize, Option<AtomV>)>|
                #[trigger] atoms_section_form(s@, q as int, es) ==> {
                    &&& k < es.len()
                    &&& table.deep_view() == es.take(k)
                    &&& p == q + 1 + ser_atom_list(es).len() - ser_atom_list(es.skip(k)).len()
                    &&& s@.subrange(p as int, p + ser_atom_list(es.skip(k)).len())
                        == ser_atom_list(es.skip(k))
                },
        decreases n - p,
    {
        let entry = match parse_atom_entry(s, p) {
            Some(t) => t,
            None => {
                proof {
                    assert forall|es: Seq<(usize, Option<AtomV>)>|
                        #[trigger] atoms_section_form(s@, q as int, es) implies false by {
                        atom_list_suffix_head(s@, p as int, es.skip(k));
                        assert(es.skip(k)[0] == es[k]);
                        assert(es[k].1 matches Some(a0) ==> atom_v_wf(a0));
                    }
                }
                return None;
            },
        };
        let ((key, value), p3) = entry;
        proof {
            assert forall|es: Seq<(usize, Option<AtomV>)>|
                #[trigger] atoms_section_form(s@, q as int, es) implies (kv_insert(
                table.deep_view(),
                key,
                value.deep_view(),
            ) == es.take(k + 1) && key == es[k].0 && p3 == p + ser_atom_entry(es[k]).len()) by {
                atom_list_suffix_head(s@, p as int, es.skip(k));
                assert(es.skip(k)[0] == es[k]);
                assert(es[k].1 matches Some(a0) ==> atom_v_wf(a0));
                assert(key == es[k].0 && value.deep_view() == es[k].1 && p3 == p
                    + ser_atom_entry(es[k]).len());
                assert(!crate::tablespec::kv_has_key(es.take(k), key)) by {
                    if crate::tablespec::kv_has_key(es.take(k), key) {
                        let m = choose|m: int|
                            0 <= m < es.take(k).len() && es.take(k)[m].0 == key;
                        assert(es[m].0 == es[k].0);
                    }
                }
                crate::tablespec::lemma_kv_find_some(es.take(k), key);
                assert(kv_insert(table.deep_view(), key, value.deep_view()) == es.take(k).push(
                    (key, value.deep_view()),
                ));
                assert(es.take(k).push((key, value.deep_view())) =~= es.take(k + 1));
            }
        }
        table.insert(key, value);
        if p3 == n {
            proof {
                assert forall|es: Seq<(usize, Option<AtomV>)>|
                    #[trigger] atoms_section_form(s@, q as int, es) implies false by {
                    atoms_section_canon(s@, q as int, es);
                    atom_list_suffix_head(s@, p as int, es.skip(k));
                    assert(es.skip(k)[0] == es[k]);
                    if k + 1 < es.len() {
                        assert(s@[p3 as int] == ',');
                        assert(p3 < s@.len());
                    } else {
                        assert(es.skip(k).len() == 1);
                        assert(p3 == q + 1 + ser_atom_list(es).len());
                        assert(s@[p3 as int] == '}');
                        assert(p3 < s@.len());
                    }
                }
            }
            return None;
        }
        let c = s.get_char(p3);
        if c == '}' {
            proof {
                assert forall|es: Seq<(usize, Option<AtomV>)>|
                    #[trigger] atoms_section_form(s@, q as int, es) implies (table.deep_view()
                    == es && p3 + 1 == q + 2 + ser_atom_list(es).len()) by {
                    atoms_section_canon(s@, q as int, es);
                    atom_list_suffix_head(s@, p as int, es.skip(k));
                    assert(es.skip(k)[0] == es[k]);
                    if k + 1 < es.len() {
                        assert(s@[p3 as int] == ',');
                        assert(false);
                    }
                    assert(es.skip(k).len() == 1);
                    assert(table.deep_view() == es.take(k + 1));
                    assert(es.take(k + 1) =~= es);
                    assert(p3 == q + 1 + ser_atom_list(es).len());
                }
            }
            return Some((table, p3 + 1));
        }
        if c != ',' {
            proof {
                assert forall|es: Seq<(usize, Option<AtomV>)>|
                    #[trigger] atoms_section_form(s@, q as int, es) implies false by {
                    atoms_section_canon(s@, q as int, es);
                    atom_list_suffix_head(s@, p as int, es.skip(k));
                    assert(es.skip(k)[0] == es[k]);
                    if k + 1 < es.len() {
                        assert(s@[p3 as int] == ',');
                    } else {
                        assert(es.skip(k).len() == 1);
                        assert(p3 == q + 1 + ser_atom_list(es).len());
                        assert(s@[p3 as int] == '}');
                    }
                }
            }
            return None;
        }
        proof {
            assert forall|es: Seq<(usize, Option<AtomV>)>|
                #[trigger] atoms_section_form(s@, q as int, es) implies {
                &&& k + 1 < es.len()
                &&& table.deep_view() == es.take(k + 1)
                &&& p3 + 1 == q + 1 + ser_atom_list(es).len() - ser_atom_list(
                    es.skip(k + 1),
                ).len()
                &&& s@.subrange(
                    p3 + 1 as int,
                    p3 + 1 + ser_atom_list(es.skip(k + 1)).len(),
                ) == ser_atom_list(es.skip(k + 1))
            } by {
                atoms_section_canon(s@, q as int, es);
                atom_list_suffix_head(s@, p as int, es.skip(k));
                assert(es.skip(k)[0] == es[k]);
                if k + 1 >= es.len() {
                    assert(es.skip(k).len() == 1);
                    assert(p3 == q + 1 + ser_atom_list(es).len());
                    assert(s@[p3 as int] == '}');
                    assert(false);
                }
                assert(es.skip(k).skip(1) =~= es.skip(k + 1));
            }
            k = k + 1;
        }
        p = p3 + 1;
    }
}

/// The text at `q` is the bonds section: the entries between braces.
pub open spec fn bonds_section_form(s: Seq<char>, q: int, es: Seq<(Pair, Option<Seq<char>>)>) -> bool {
    &&& crate::molecule::bond_entries_wf(es)
    &&& 0 <= q
    &&& q + 2 + ser_bond_list(es).len() <= s.len()
    &&& s.subrange(q, q + 2 + ser_bond_list(es).len()) == seq!['{'] + ser_bond_list(es)
        + seq!['}']
}

proof fn bonds_section_canon(s: Seq<char>, q: int, es: Seq<(Pair, Option<Seq<char>>)>)
    requires
        bonds_section_form(s, q, es),
    ensures
        s[q] == '{',
        s[q + 1 + ser_bond_list(es).len()] == '}',
        s.subrange(q + 1, q + 1 + ser_bond_list(es).len()) == ser_bond_list(es),
{
    let l = ser_bond_list(es);
    let w = seq!['{'] + l + seq!['}'];
    lemma_sub_at(s, q, w, 0, w.len() as int);
    assert(s[q] == w[0]);
    assert(s[q + 1 + l.len()] == w[(1 + l.len()) as int]);
    assert(s.subrange(q + 1, q + 1 + l.len()) =~= l) by {
        assert forall|u: int| 0 <= u < l.len() implies s.subrange(q + 1, q + 1 + l.len())[u]
            == l[u] by {
            assert(s[q + (1 + u)] == w[1 + u]);
            assert(w[1 + u] == l[u]);
        }
    }
}

proof fn bond_list_suffix_head(s: Seq<char>, a: int, rest: Seq<(Pair, Option<Seq<char>>)>)
    requires
        rest.len() > 0,
        0 <= a,
        a + ser_bond_list(rest).len() <= s.len(),
        s.subrange(a, a + ser_bond_list(rest).len()) == ser_bond_list(rest),
    ensures
        a + ser_bond_entry(rest[0]).len() <= s.len(),
        s.subrange(a, a + ser_bond_entry(rest[0]).len()) == ser_bond_entry(rest[0]),
        rest.len() == 1 ==> ser_bond_list(rest).len() == ser_bond_entry(rest[0]).len(),
        rest.len() > 1 ==> s[a + ser_bond_entry(rest[0]).len()] == ',',
        rest.len() > 1 ==> ser_bond_list(rest).len() == ser_bond_entry(rest[0]).len() + 1
            + ser_bond_list(rest.skip(1)).len(),
        rest.len() > 1 ==> s.subrange(
            a + ser_bond_entry(rest[0]).len() + 1,
            a + ser_bond_list(rest).len(),
        ) == ser_bond_list(rest.skip(1)),
{
    let l = ser_bond_list(rest);
    let e = ser_bond_entry(rest[0]);
    lemma_sub_at(s, a, l, 0, l.len() as int);
    if rest.len() == 1 {
        assert(l == e);
        assert(s.subrange(a, a + e.len()) == l);
    } else {
        let tail = ser_bond_list(rest.skip(1));
        assert(l == e + seq![','] + tail);
        assert(s.subrange(a, a + e.len()) =~= e) by {
            assert forall|u: int| 0 <= u < e.len() implies s.subrange(a, a + e.len())[u]
                == e[u] by {
                assert(s[a + u] == l[u]);
                assert(l[u] == e[u]);
            }
        }
        assert(s[a + e.len()] == l[e.len() as int]);
        assert(l[e.len() as int] == ',');
        assert(s.subrange(a + e.len() + 1, a + l.len()) =~= tail) by {
            assert forall|u: int|
                0 <= u < tail.len() implies s.subrange(a + e.len() + 1, a + l.len())[u]
                == tail[u] by {
                assert(s[a + (e.len() + 1 + u)] == l[(e.len() + 1 + u) as int]);
                assert(l[(e.len() + 1 + u) as int] == tail[u]);
            }
        }
    }
}

/// The text at `q` is the groups section: the entries between brackets.
pub open spec fn groups_section_form(s: Seq<char>, q: int, es: Seq<(usize, Seq<char>)>) -> bool {
    &&& es.no_duplicates()
    &&& 0 <= q
    &&& q + 2 + ser_group_list(es).len() <= s.len()
    &&& s.subrange(q, q + 2 + ser_group_list(es).len()) == seq!['['] + ser_group_list(es)
        + seq![']']
}

proof fn groups_section_canon(s: Seq<char>, q: int, es: Seq<(usize, Seq<char>)>)
    requires
        groups_section_form(s, q, es),
    ensures
        s[q] == '[',
        s[q + 1 + ser_group_list(es).len()] == ']',
        s.subrange(q + 1, q + 1 + ser_group_list(es).len()) == ser_group_list(es),
{
    let l = ser_group_list(es);
    let w = seq!['['] + l + seq![']'];
    lemma_sub_at(s, q, w, 0, w.len() as int);
    assert(s[q] == w[0]);
    assert(s[q + 1 + l.len()] == w[(1 + l.len()) as int]);
    assert(s.subrange(q + 1, q + 1 + l.len()) =~= l) by {
        assert forall|u: int| 0 <= u < l.len() implies s.subrange(q + 1, q + 1 + l.len())[u]
            == l[u] by {
            assert(s[q + (1 + u)] == w[1 + u]);
            assert(w[1 + u] == l[u]);
        }
    }
}

proof fn group_list_suffix_head(s: Seq<char>, a: int, rest: Seq<(usize, Seq<char>)>)
    requires
        rest.len() > 0,
        0 <= a,
        a + ser_group_list(rest).len() <= s.len(),
        s.subrange(a, a + ser_group_list(rest).len()) == ser_group_list(rest),
    ensures
        a + ser_group_entry(rest[0]).len() <= s.len(),
        s.subrange(a, a + ser_group_entry(rest[0]).len()) == ser_group_entry(rest[0]),
        rest.len() == 1 ==> ser_group_list(rest).len() == ser_group_entry(rest[0]).len(),
        rest.len() > 1 ==> s[a + ser_group_entry(rest[0]).len()] == ',',
        rest.len() > 1 ==> ser_group_list(rest).len() == ser_group_entry(rest[0]).len() + 1
            + ser_group_list(rest.skip(1)).len(),
        rest.len() > 1 ==> s.subrange(
            a + ser_group_entry(rest[0]).len() + 1,
            a + ser_group_list(rest).len(),
        ) == ser_group_list(rest.skip(1)),
{
    let l = ser_group_list(rest);
    let e = ser_group_entry(rest[0]);
    lemma_sub_at(s, a, l, 0, l.len() as int);
    if rest.len() == 1 {
        assert(l == e);
        assert(s.subrange(a, a + e.len()) == l);
    } else {
        let tail = ser_group_list(rest.skip(1));
        assert(l == e + seq![','] + tail);
        assert(s.subrange(a, a + e.len()) =~= e) by {
            assert forall|u: int| 0 <= u < e.len() implies s.subrange(a, a + e.len())[u]
                == e[u] by {
                assert(s[a + u] == l[u]);
                assert(l[u] == e[u]);
            }
        }
        assert(s[a + e.len()] == l[e.len() as int]);
        assert(l[e.len() as int] == ',');
        assert(s.subrange(a + e.len() + 1, a + l.len()) =~= tail) by {
            assert forall|u: int|
                0 <= u < tail.len() implies s.subrange(a + e.len() + 1, a + l.len())[u]
                == tail[u] by {
                assert(s[a + (e.len() + 1 + u)] == l[(e.len() + 1 + u) as int]);
                assert(l[(e.len() + 1 + u) as int] == tail[u]);
            }
        }
    }
}

/// Reads the edge table: entries between `{` and `}`; a key must join two
/// distinct indices, smaller first; later entries override earlier ones
/// on a repeated key.
#[verifier::rlimit(80)]
fn parse_bonds(s: &str, q: usize) -> (r: Option<(BondGraph, usize)>)
    requires
        q <= s@.len(),
    ensures
        r matches Some((t, j)) ==> q < j <= s@.len() && t.wf(),
        forall|es: Seq<(Pair, Option<Seq<char>>)>|
            #[trigger] bonds_section_form(s@, q as int, es) ==> (r matches Some((t, j))
                && t.deep_view() == es && j == q + 2 + ser_bond_list(es).len()),
{
    let n = s.unicode_len();
    if q == n || s.get_char(q) != '{' {
        proof {
            assert forall|es: Seq<(Pair, Option<Seq<char>>)>|
                #[trigger] bonds_section_form(s@, q as int, es) implies false by {
                bonds_section_canon(s@, q as int, es);
            }
        }
        return None;
    }
    let mut table = BondGraph::new();
    let mut p = q + 1;
    if p < n && s.get_char(p) == '}' {
        proof {
            assert forall|es: Seq<(Pair, Option<Seq<char>>)>|
                #[trigger] bonds_section_form(s@, q as int, es) implies (table.deep_view() == es
                && p + 1 == q + 2 + ser_bond_list(es).len()) by {
                bonds_section_canon(s@, q as int, es);
                if es.len() > 0 {
                    bond_list_suffix_head(s@, q + 1, es);
                    bond_entry_canon(s@, q + 1, es[0]);
                    assert(s@[q as int + 1] == '"');
                    assert(false);
                }
                assert(ser_bond_list(es).len() == 0);
                assert(table.deep_view() =~= es);
            }
        }
        return Some((table, p + 1));
    }
    let ghost mut k: int = 0;
    proof {
        assert forall|es: Seq<(Pair, Option<Seq<char>>)>|
            #[trigger] bonds_section_form(s@, q as int, es) implies {
            &&& k < es.len()
            &&& table.deep_view() == es.take(k)
            &&& p == q + 1 + ser_bond_list(es).len() - ser_bond_list(es.skip(k)).len()
            &&& s@.subrange(p as int, p + ser_bond_list(es.skip(k)).len()) == ser_bond_list(
                es.skip(k),
            )
        } by {
            bonds_section_canon(s@, q as int, es);
            if es.len() == 0 {
                assert(ser_bond_list(es).len() == 0);
                assert(s@[q as int + 1] == '}');
                assert(q + 1 < s@.len());
                assert(false);
            }
            assert(es.skip(0) =~= es);
            assert(table.deep_view() =~= es.take(0));
        }
    }
    loop
        invariant
            q < p <= n,
            n == s@.len(),
            table.wf(),
            0 <= k,
            forall|es: Seq<(Pair, Option<Seq<char>>)>|
                #[trigger] bonds_section_form(s@, q as int, es) ==> {
                    &&& k < es.len()
                    &&& table.deep_view() == es.take(k)
                    &&& p == q + 1 + ser_bond_list(es).len() - ser_bond_list(es.skip(k)).len()
                    &&& s@.subrange(p as int, p + ser_bond_list(es.skip(k)).len())
                        == ser_bond_list(es.skip(k))
                },
        decreases n - p,
    {
        let entry = match parse_bond_entry(s, p) {
            Some(t) => t,
            None => {
                proof {
                    assert forall|es: Seq<(Pair, Option<Seq<char>>)>|
                        #[trigger] bonds_section_form(s@, q as int, es) implies false by {
                        bonds_section_canon(s@, q as int, es);
                        bond_list_suffix_head(s@, p as int, es.skip(k));
                        assert(es.skip(k)[0] == es[k]);
                        assert(crate::molecule::bond_entry_wf(es[k]));
                        if es.skip(k).len() > 1 {
                            assert(s@[p + ser_bond_entry(es[k]).len()] == ',');
                        } else {
                            assert(p + ser_bond_entry(es[k]).len() == q + 1 + ser_bond_list(
                                es,
                            ).len());
                            assert(s@[p + ser_bond_entry(es[k]).len()] == '}');
                        }
                    }
                }
                return None;
            },
        };
        let ((key, value), p3) = entry;
        proof {
            assert forall|es: Seq<(Pair, Option<Seq<char>>)>|
                #[trigger] bonds_section_form(s@, q as int, es) implies (kv_insert(
                table.deep_view(),
                key,
                value.deep_view(),
            ) == es.take(k + 1) && p3 == p + ser_bond_entry(es[k]).len()) by {
                bonds_section_canon(s@, q as int, es);
                bond_list_suffix_head(s@, p as int, es.skip(k));
                assert(es.skip(k)[0] == es[k]);
                assert(crate::molecule::bond_entry_wf(es[k]));
                if es.skip(k).len() > 1 {
                    assert(s@[p + ser_bond_entry(es[k]).len()] == ',');
                } else {
                    assert(p + ser_bond_entry(es[k]).len() == q + 1 + ser_bond_list(es).len());
                    assert(s@[p + ser_bond_entry(es[k]).len()] == '}');
                }
                assert(key == es[k].0 && value.deep_view() == es[k].1 && p3 == p
                    + ser_bond_entry(es[k]).len());
                assert(!crate::tablespec::kv_has_key(es.take(k), key)) by {
                    if crate::tablespec::kv_has_key(es.take(k), key) {
                        let m = choose|m: int|
                            0 <= m < es.take(k).len() && es.take(k)[m].0 == key;
                        assert(es[m].0 == es[k].0);
                    }
                }
                crate::tablespec::lemma_kv_find_some(es.take(k), key);
                assert(kv_insert(table.deep_view(), key, value.deep_view()) == es.take(k).push(
                    (key, value.deep_view()),
                ));
                assert(es.take(k).push((key, value.deep_view())) =~= es.take(k + 1));
            }
        }
        table.insert(key, value);
        if p3 == n {
            proof {
                assert forall|es: Seq<(Pair, Option<Seq<char>>)>|
                    #[trigger] bonds_section_form(s@, q as int, es) implies false by {
                    bonds_section_canon(s@, q as int, es);
                    bond_list_suffix_head(s@, p as int, es.skip(k));
                    assert(es.skip(k)[0] == es[k]);
                    if k + 1 < es.len() {
                        assert(s@[p3 as int] == ',');
                        assert(p3 < s@.len());
                    } else {
                        assert(es.skip(k).len() == 1);
                        assert(p3 == q + 1 + ser_bond_list(es).len());
                        assert(s@[p3 as int] == '}');
                        assert(p3 < s@.len());
                    }
                }
            }
            return None;
        }
        let c = s.get_char(p3);
        if c == '}' {
            proof {
                assert forall|es: Seq<(Pair, Option<Seq<char>>)>|
                    #[trigger] bonds_section_form(s@, q as int, es) implies (table.deep_view()
                    == es && p3 + 1 == q + 2 + ser_bond_list(es).len()) by {
                    bonds_section_canon(s@, q as int, es);
                    bond_list_suffix_head(s@, p as int, es.skip(k));
                    assert(es.skip(k)[0] == es[k]);
                    if k + 1 < es.len() {
                        assert(s@[p3 as int] == ',');
                        assert(false);
                    }
                    assert(es.skip(k).len() == 1);
                    assert(table.deep_view() == es.take(k + 1));
                    assert(es.take(k + 1) =~= es);
                    assert(p3 == q + 1 + ser_bond_list(es).len());
                }
            }
            return Some((table, p3 + 1));
        }
        if c != ',' {
            proof {
                assert forall|es: Seq<(Pair, Option<Seq<char>>)>|
                    #[trigger] bonds_section_form(s@, q as int, es) implies false by {
                    bonds_section_canon(s@, q as int, es);
                    bond_list_suffix_head(s@, p as int, es.skip(k));
                    assert(es.skip(k)[0] == es[k]);
                    if k + 1 < es.len() {
                        assert(s@[p3 as int] == ',');
                    } else {
                        assert(es.skip(k).len() == 1);
                        assert(p3 == q + 1 + ser_bond_list(es).len());
                        assert(s@[p3 as int] == '}');
                    }
                }
            }
            return None;
        }
        proof {
            assert forall|es: Seq<(Pair, Option<Seq<char>>)>|
                #[trigger] bonds_section_form(s@, q as int, es) implies {
                &&& k + 1 < es.len()
                &&& table.deep_view() == es.take(k + 1)
                &&& p3 + 1 == q + 1 + ser_bond_list(es).len() - ser_bond_list(
                    es.skip(k + 1),
                ).len()
                &&& s@.subrange(
                    p3 + 1 as int,
                    p3 + 1 + ser_bond_list(es.skip(k + 1)).len(),
                ) == ser_bond_list(es.skip(k + 1))
            } by {
                bonds_section_canon(s@, q as int, es);
                bond_list_suffix_head(s@, p as int, es.skip(k));
                assert(es.skip(k)[0] == es[k]);
                if k + 1 >= es.len() {
                    assert(es.skip(k).len() == 1);
                    assert(p3 == q + 1 + ser_bond_list(es).len());
                    assert(s@[p3 as int] == '}');
                    assert(false);
                }
                assert(es.skip(k).skip(1) =~= es.skip(k + 1));
            }
            k = k + 1;
        }
        p = p3 + 1;
    }
}

/// Reads the group relation: `[index, tag]` pairs between `[` and `]`,
/// a repeated pair kept once.
#[verifier::rlimit(80)]
fn parse_groups(s: &str, q: usize) -> (r: Option<(GroupTable, usize)>)
    requires
        q <= s@.len(),
    ensures
        r matches Some((t, j)) ==> q < j <= s@.len() && t.wf(),
        forall|es: Seq<(usize, Seq<char>)>|
            #[trigger] groups_section_form(s@, q as int, es) ==> (r matches Some((t, j))
                && t.deep_view() == es && j == q + 2 + ser_group_list(es).len()),
{
    let n = s.unicode_len();
    if q == n || s.get_char(q) != '[' {
        proof {
            assert forall|es: Seq<(usize, Seq<char>)>|
                #[trigger] groups_section_form(s@, q as int, es) implies false by {
                groups_section_canon(s@, q as int, es);
            }
        }
        return None;
    }
    let mut table = GroupTable::new();
    let mut p = q + 1;
    if p < n && s.get_char(p) == ']' {
        proof {
            assert forall|es: Seq<(usize, Seq<char>)>|
                #[trigger] groups_section_form(s@, q as int, es) implies (table.deep_view() == es
                && p + 1 == q + 2 + ser_group_list(es).len()) by {
                groups_section_canon(s@, q as int, es);
                if es.len() > 0 {
                    group_list_suffix_head(s@, q + 1, es);
                    group_entry_canon(s@, q + 1, es[0]);
                    assert(s@[q as int + 1] == '[');
                    assert(false);
                }
                assert(ser_group_list(es).len() == 0);
                assert(table.deep_view() =~= es);
            }
        }
        return Some((table, p + 1));
    }
    let ghost mut k: int = 0;
    proof {
        assert forall|es: Seq<(usize, Seq<char>)>|
            #[trigger] groups_section_form(s@, q as int, es) implies {
            &&& k < es.len()
            &&& table.deep_view() == es.take(k)
            &&& p == q + 1 + ser_group_list(es).len() - ser_group_list(es.skip(k)).len()
            &&& s@.subrange(p as int, p + ser_group_list(es.skip(k)).len()) == ser_group_list(
                es.skip(k),
            )
        } by {
            groups_section_canon(s@, q as int, es);
            if es.len() == 0 {
                assert(ser_group_list(es).len() == 0);
                assert(s@[q as int + 1] == ']');
                assert(q + 1 < s@.len());
                assert(false);
            }
            assert(es.skip(0) =~= es);
            assert(table.deep_view() =~= es.take(0));
        }
    }
    loop
        invariant
            q < p <= n,
            n == s@.len(),
            table.wf(),
            0 <= k,
            forall|es: Seq<(usize, Seq<char>)>|
                #[trigger] groups_section_form(s@, q as int, es) ==> {
                    &&& k < es.len()
                    &&& table.deep_view() == es.take(k)
                    &&& p == q + 1 + ser_group_list(es).len() - ser_group_list(es.skip(k)).len()
                    &&& s@.subrange(p as int, p + ser_group_list(es.skip(k)).len())
                        == ser_group_list(es.skip(k))
                },
        decreases n - p,
    {
        let entry = match parse_group_entry(s, p) {
            Some(t) => t,
            None => {
                proof {
                    assert forall|es: Seq<(usize, Seq<char>)>|
                        #[trigger] groups_section_form(s@, q as int, es) implies false by {
                        group_list_suffix_head(s@, p as int, es.skip(k));
                        assert(es.skip(k)[0] == es[k]);
                    }
                }
                return None;
            },
        };
        let ((idx, tag), p3) = entry;
        proof {
            assert forall|es: Seq<(usize, Seq<char>)>|
                #[trigger] groups_section_form(s@, q as int, es) implies (crate::molecule::gr_insert(
                table.deep_view(),
                (idx, tag@),
            ) == es.take(k + 1) && p3 == p + ser_group_entry(es[k]).len()) by {
                group_list_suffix_head(s@, p as int, es.skip(k));
                assert(es.skip(k)[0] == es[k]);
                assert(idx == es[k].0 && tag@ == es[k].1 && p3 == p + ser_group_entry(
                    es[k],
                ).len());
                assert(!es.take(k).contains((idx, tag@))) by {
                    if es.take(k).contains((idx, tag@)) {
                        let m = choose|m: int|
                            0 <= m < es.take(k).len() && es.take(k)[m] == (idx, tag@);
                        assert(es[m] == es[k]);
                    }
                }
                assert(crate::molecule::gr_insert(table.deep_view(), (idx, tag@)) == es.take(
                    k,
                ).push((idx, tag@)));
                assert(es.take(k).push((idx, tag@)) =~= es.take(k + 1));
            }
        }
        table.insert(idx, tag);
        if p3 == n {
            proof {
                assert forall|es: Seq<(usize, Seq<char>)>|
                    #[trigger] groups_section_form(s@, q as int, es) implies false by {
                    groups_section_canon(s@, q as int, es);
                    group_list_suffix_head(s@, p as int, es.skip(k));
                    assert(es.skip(k)[0] == es[k]);
                    if k + 1 < es.len() {
                        assert(s@[p3 as int] == ',');
                        assert(p3 < s@.len());
                    } else {
                        assert(es.skip(k).len() == 1);
                        assert(p3 == q + 1 + ser_group_list(es).len());
                        assert(s@[p3 as int] == ']');
                        assert(p3 < s@.len());
                    }
                }
            }
            return None;
        }
        let c = s.get_char(p3);
        if c == ']' {
            proof {
                assert forall|es: Seq<(usize, Seq<char>)>|
                    #[trigger] groups_section_form(s@, q as int, es) implies (table.deep_view()
                    == es && p3 + 1 == q + 2 + ser_group_list(es).len()) by {
                    groups_section_canon(s@, q as int, es);
                    group_list_suffix_head(s@, p as int, es.skip(k));
                    assert(es.skip(k)[0] == es[k]);
                    if k + 1 < es.len() {
                        assert(s@[p3 as int] == ',');
                        assert(false);
                    }
                    assert(es.skip(k).len() == 1);
                    assert(table.deep_view() == es.take(k + 1));
                    assert(es.take(k + 1) =~= es);
                    assert(p3 == q + 1 + ser_group_list(es).len());
                }
            }
            return Some((table, p3 + 1));
        }
        if c != ',' {
            proof {
                assert forall|es: Seq<(usize, Seq<char>)>|
                    #[trigger] groups_section_form(s@, q as int, es) implies false by {
                    groups_section_canon(s@, q as int, es);
                    group_list_suffix_head(s@, p as int, es.skip(k));
                    assert(es.skip(k)[0] == es[k]);
                    if k + 1 < es.len() {
                        assert(s@[p3 as int] == ',');
                    } else {
                        assert(es.skip(k).len() == 1);
                        assert(p3 == q + 1 + ser_group_list(es).len());
                        assert(s@[p3 as int] == ']');
                    }
                }
            }
            return None;
        }
        proof {
            assert forall|es: Seq<(usize, Seq<char>)>|
                #[trigger] groups_section_form(s@, q as int, es) implies {
                &&& k + 1 < es.len()
                &&& table.deep_view() == es.take(k + 1)
                &&& p3 + 1 == q + 1 + ser_group_list(es).len() - ser_group_list(
                    es.skip(k + 1),
                ).len()
                &&& s@.subrange(
                    p3 + 1 as int,
                    p3 + 1 + ser_group_list(es.skip(k + 1)).len(),
                ) == ser_group_list(es.skip(k + 1))
            } by {
                groups_section_canon(s@, q as int, es);
                group_list_suffix_head(s@, p as int, es.skip(k));
                assert(es.skip(k)[0] == es[k]);
                if k + 1 >= es.len() {
                    assert(es.skip(k).len() == 1);
                    assert(p3 == q + 1 + ser_group_list(es).len());
                    assert(s@[p3 as int] == ']');
                    assert(false);
                }
                assert(es.skip(k).skip(1) =~= es.skip(k + 1));
            }
            k = k + 1;
        }
        p = p3 + 1;
    }
}

/// Under the canonical premise, the three sections and the fixed marks of
/// a molecule document stand at their places.
#[verifier::rlimit(80)]
proof fn molecule_canon(s: Seq<char>, m0: MoleculeV)
    requires
        molecule_v_wf(m0),
        s == ser_molecule(m0),
    ensures
        "{\"atoms\":"@.len() + 1 <= s.len(),
        s.subrange(0, "{\"atoms\":"@.len() as int) == "{\"atoms\":"@,
        atoms_section_form(s, ("{\"atoms\":"@.len()) as int, m0.atoms),
        s.subrange(
            ("{\"atoms\":"@.len() + 2 + ser_atom_list(m0.atoms).len()) as int,
            ("{\"atoms\":"@.len() + 2 + ser_atom_list(m0.atoms).len()
                + ",\"bonds\":"@.len()) as int,
        ) == ",\"bonds\":"@,
        bonds_section_form(
            s,
            ("{\"atoms\":"@.len() + 2 + ser_atom_list(m0.atoms).len()
                + ",\"bonds\":"@.len()) as int,
            m0.bonds,
        ),
        s.subrange(
            ("{\"atoms\":"@.len() + 2 + ser_atom_list(m0.atoms).len() + ",\"bonds\":"@.len()
                + 2 + ser_bond_list(m0.bonds).len()) as int,
            ("{\"atoms\":"@.len() + 2 + ser_atom_list(m0.atoms).len() + ",\"bonds\":"@.len()
                + 2 + ser_bond_list(m0.bonds).len() + ",\"groups\":"@.len()) as int,
        ) == ",\"groups\":"@,
        groups_section_form(
            s,
            ("{\"atoms\":"@.len() + 2 + ser_atom_list(m0.atoms).len() + ",\"bonds\":"@.len()
                + 2 + ser_bond_list(m0.bonds).len() + ",\"groups\":"@.len()) as int,
            m0.groups,
        ),
        s.subrange(s.len() - 1, s.len() as int) == "}"@,
        s.len() == "{\"atoms\":"@.len() + 2 + ser_atom_list(m0.atoms).len()
            + ",\"bonds\":"@.len() + 2 + ser_bond_list(m0.bonds).len() + ",\"groups\":"@.len()
            + 2 + ser_group_list(m0.groups).len() + 1,
{
    reveal_strlit("{\"atoms\":{");
    reveal_strlit("},\"bonds\":{");
    reveal_strlit("},\"groups\":[");
    reveal_strlit("]}");
    reveal_strlit("{\"atoms\":");
    reveal_strlit(",\"bonds\":");
    reveal_strlit(",\"groups\":");
    reveal_strlit("}");
    let l1 = "{\"atoms\":{"@;
    let l2 = "},\"bonds\":{"@;
    let l3 = "},\"groups\":["@;
    let l4 = "]}"@;
    let al = ser_atom_list(m0.atoms);
    let bl = ser_bond_list(m0.bonds);
    let gl = ser_group_list(m0.groups);
    let a0 = l1.len() - 1;
    let b0 = l1.len() + al.len() + l2.len() - 1;
    let g0 = l1.len() + al.len() + l2.len() + bl.len() + l3.len() - 1;
    assert(s.len() == l1.len() + al.len() + l2.len() + bl.len() + l3.len() + gl.len()
        + l4.len());
    assert(s.subrange(0, "{\"atoms\":"@.len() as int) =~= "{\"atoms\":"@) by {
        assert forall|u: int|
            0 <= u < "{\"atoms\":"@.len() implies s.subrange(
            0,
            "{\"atoms\":"@.len() as int,
        )[u] == "{\"atoms\":"@[u] by {
            assert(s[u] == l1[u]);
        }
    }
    assert(s.subrange(a0, a0 + 2 + al.len()) =~= seq!['{'] + al + seq!['}']) by {
        assert forall|u: int|
            0 <= u < 2 + al.len() implies s.subrange(a0, a0 + 2 + al.len())[u] == (seq!['{'] + al
            + seq!['}'])[u] by {
            if u == 0 {
                assert(s[a0] == l1[l1.len() - 1]);
            } else if u <= al.len() {
                assert(s[a0 + u] == al[u - 1]);
            } else {
                assert(s[a0 + u] == l2[0]);
            }
        }
    }
    assert(atoms_section_form(s, a0, m0.atoms));
    assert(s.subrange(a0 + 2 + al.len(), a0 + 2 + al.len() + ",\"bonds\":"@.len())
        =~= ",\"bonds\":"@) by {
        assert forall|u: int|
            0 <= u < ",\"bonds\":"@.len() implies s.subrange(
            a0 + 2 + al.len(),
            a0 + 2 + al.len() + ",\"bonds\":"@.len(),
        )[u] == ",\"bonds\":"@[u] by {
            assert(s[l1.len() + al.len() + (1 + u)] == l2[1 + u]);
        }
    }
    assert(s.subrange(b0, b0 + 2 + bl.len()) =~= seq!['{'] + bl + seq!['}']) by {
        assert forall|u: int|
            0 <= u < 2 + bl.len() implies s.subrange(b0, b0 + 2 + bl.len())[u] == (seq!['{'] + bl
            + seq!['}'])[u] by {
            if u == 0 {
                assert(s[b0] == l2[l2.len() - 1]);
            } else if u <= bl.len() {
                assert(s[b0 + u] == bl[u - 1]);
            } else {
                assert(s[b0 + u] == l3[0]);
            }
        }
    }
    assert(bonds_section_form(s, b0, m0.bonds));
    assert(s.subrange(b0 + 2 + bl.len(), b0 + 2 + bl.len() + ",\"groups\":"@.len())
        =~= ",\"groups\":"@) by {
        assert forall|u: int|
            0 <= u < ",\"groups\":"@.len() implies s.subrange(
            b0 + 2 + bl.len(),
            b0 + 2 + bl.len() + ",\"groups\":"@.len(),
        )[u] == ",\"groups\":"@[u] by {
            assert(s[l1.len() + al.len() + l2.len() + bl.len() + (1 + u)] == l3[1 + u]);
        }
    }
    assert(s.subrange(g0, g0 + 2 + gl.len()) =~= seq!['['] + gl + seq![']']) by {
        assert forall|u: int|
            0 <= u < 2 + gl.len() implies s.subrange(g0, g0 + 2 + gl.len())[u] == (seq!['['] + gl
            + seq![']'])[u] by {
            if u == 0 {
                assert(s[g0] == l3[l3.len() - 1]);
            } else if u <= gl.len() {
                assert(s[g0 + u] == gl[u - 1]);
            } else {
                assert(s[g0 + u] == l4[0]);
            }
        }
    }
    assert(groups_section_form(s, g0, m0.groups));
    assert(s.subrange(s.len() - 1, s.len() as int) =~= "}"@) by {
        assert(s[s.len() - 1] == l4[l4.len() - 1]);
    }
}

/// Reads a whole molecule document; every accepted document yields a
/// well-formed molecule, and nothing else is accepted.
#[verifier::rlimit(80)]
pub fn molecule_from_json(s: &str) -> (r: Option<Molecule>)
    ensures
        r matches Some(m) ==> m.wf(),
        forall|m0: MoleculeV|
            (molecule_v_wf(m0) && s@ == #[trigger] ser_molecule(m0)) ==> (r matches Some(m)
                && m.deep_view() == m0),
{
    let p0 = match match_lit(s, 0, "{\"atoms\":") {
        Some(j) => j,
        None => {
proof {
                assert forall|m0: MoleculeV|
                    (molecule_v_wf(m0) && s@ == #[trigger] ser_molecule(m0)) implies false by {
                    molecule_canon(s@, m0);

                }
            }
            return None;
        },
    };
    let (atoms, p1) = match parse_atoms(s, p0) {
        Some(t) => t,
        None => {
proof {
                assert forall|m0: MoleculeV|
                    (molecule_v_wf(m0) && s@ == #[trigger] ser_molecule(m0)) implies false by {
                    molecule_canon(s@, m0);
                    assert(p0 == "{\"atoms\":"@.len());
                }
            }
            return None;
        },
    };
    let p2 = match match_lit(s, p1, ",\"bonds\":") {
        Some(j) => j,
        None => {
proof {
                assert forall|m0: MoleculeV|
                    (molecule_v_wf(m0) && s@ == #[trigger] ser_molecule(m0)) implies false by {
                    molecule_canon(s@, m0);
                    assert(p0 == "{\"atoms\":"@.len());
                    assert(atoms.deep_view() == m0.atoms && p1 == p0 + 2 + ser_atom_list(m0.atoms).len());
                }
            }
            return None;
        },
    };
    let (bonds, p3) = match parse_bonds(s, p2) {
        Some(t) => t,
        None => {
proof {
                assert forall|m0: MoleculeV|
                    (molecule_v_wf(m0) && s@ == #[trigger] ser_molecule(m0)) implies false by {
                    molecule_canon(s@, m0);
                    assert(p0 == "{\"atoms\":"@.len());
                    assert(atoms.deep_view() == m0.atoms && p1 == p0 + 2 + ser_atom_list(m0.atoms).len());
                    assert(p2 == p1 + ",\"bonds\":"@.len());
                }
            }
            return None;
        },
    };
    let p4 = match match_lit(s, p3, ",\"groups\":") {
        Some(j) => j,
        None => {
proof {
                assert forall|m0: MoleculeV|
                    (molecule_v_wf(m0) && s@ == #[trigger] ser_molecule(m0)) implies false by {
                    molecule_canon(s@, m0);
                    assert(p0 == "{\"atoms\":"@.len());
                    assert(atoms.deep_view() == m0.atoms && p1 == p0 + 2 + ser_atom_list(m0.atoms).len());
                    assert(p2 == p1 + ",\"bonds\":"@.len());
                    assert(bonds.deep_view() == m0.bonds && p3 == p2 + 2 + ser_bond_list(m0.bonds).len());
                }
            }
            return None;
        },
    };
    let (groups, p5) = match parse_groups(s, p4) {
        Some(t) => t,
        None => {
proof {
                assert forall|m0: MoleculeV|
                    (molecule_v_wf(m0) && s@ == #[trigger] ser_molecule(m0)) implies false by {
                    molecule_canon(s@, m0);
                    assert(p0 == "{\"atoms\":"@.len());
                    assert(atoms.deep_view() == m0.atoms && p1 == p0 + 2 + ser_atom_list(m0.atoms).len());
                    assert(p2 == p1 + ",\"bonds\":"@.len());
                    assert(bonds.deep_view() == m0.bonds && p3 == p2 + 2 + ser_bond_list(m0.bonds).len());
                    assert(p4 == p3 + ",\"groups\":"@.len());
                }
            }
            return None;
        },
    };
    let p6 = match match_lit(s, p5, "}") {
        Some(j) => j,
        None => {
proof {
                assert forall|m0: MoleculeV|
                    (molecule_v_wf(m0) && s@ == #[trigger] ser_molecule(m0)) implies false by {
                    molecule_canon(s@, m0);
                    assert(p0 == "{\"atoms\":"@.len());
                    assert(atoms.deep_view() == m0.atoms && p1 == p0 + 2 + ser_atom_list(m0.atoms).len());
                    assert(p2 == p1 + ",\"bonds\":"@.len());
                    assert(bonds.deep_view() == m0.bonds && p3 == p2 + 2 + ser_bond_list(m0.bonds).len());
                    assert(p4 == p3 + ",\"groups\":"@.len());
                    assert(groups.deep_view() == m0.groups && p5 == p4 + 2 + ser_group_list(m0.groups).len());
                    assert(p5 == s@.len() - 1);
                    assert(s@.subrange(p5 as int, p5 + "}"@.len()) == "}"@);
                }
            }
            return None;
        },
    };
    if p6 != s.unicode_len() {
        proof {
            assert forall|m0: MoleculeV|
                (molecule_v_wf(m0) && s@ == #[trigger] ser_molecule(m0)) implies false by {
                molecule_canon(s@, m0);
                assert(p0 == "{\"atoms\":"@.len());
                assert(atoms.deep_view() == m0.atoms && p1 == p0 + 2 + ser_atom_list(
                    m0.atoms,
                ).len());
                assert(p2 == p1 + ",\"bonds\":"@.len());
                assert(bonds.deep_view() == m0.bonds && p3 == p2 + 2 + ser_bond_list(
                    m0.bonds,
                ).len());
                assert(p4 == p3 + ",\"groups\":"@.len());
                assert(groups.deep_view() == m0.groups && p5 == p4 + 2 + ser_group_list(
                    m0.groups,
                ).len());
                assert(p6 == p5 + "}"@.len());
                reveal_strlit("}");
            }
        }
        return None;
    }
    proof {
        assert forall|m0: MoleculeV|
            (molecule_v_wf(m0) && s@ == #[trigger] ser_molecule(m0)) implies Molecule {
            atoms,
            bonds,
            groups,
        }.deep_view() == m0 by {
            molecule_canon(s@, m0);
            assert(p0 == "{\"atoms\":"@.len());
            assert(atoms.deep_view() == m0.atoms && p1 == p0 + 2 + ser_atom_list(
                m0.atoms,
            ).len());
            assert(p2 == p1 + ",\"bonds\":"@.len());
            assert(bonds.deep_view() == m0.bonds && p3 == p2 + 2 + ser_bond_list(
                m0.bonds,
            ).len());
            assert(p4 == p3 + ",\"groups\":"@.len());
            assert(groups.deep_view() == m0.groups && p5 == p4 + 2 + ser_group_list(
                m0.groups,
            ).len());
        }
    }
    Some(Molecule { atoms, bonds, groups })
}

/// Writes the canonical document of the molecule.
pub fn molecule_to_json(m: &Molecule) -> (r: String)
    ensures
        r@ == ser_molecule(m.deep_view()),
{
    let mut out = String::new();
    push_lit(&mut out, "{\"atoms\":{");
    push_atoms(&mut out, &m.atoms);
    push_lit(&mut out, "},\"bonds\":{");
    push_bonds(&mut out, &m.bonds);
    push_lit(&mut out, "},\"groups\":[");
    push_groups(&mut out, &m.groups);
    push_lit(&mut out, "]}");
    proof {
        assert(out@ =~= ser_molecule(m.deep_view()));
    }
    out
}

} // verus!
