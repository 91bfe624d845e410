use vstd::prelude::*;
use vstd::utf8::encode_utf8;

verus! {

/// Byte-wise lexicographic order, the order of `str`: a prefix comes first,
/// otherwise the first differing byte decides.
pub open spec fn bytes_le(a: Seq<u8>, b: Seq<u8>) -> bool
    decreases a.len(),
{
    if a.len() == 0 {
        true
    } else if b.len() == 0 {
        false
    } else if a[0] != b[0] {
        a[0] < b[0]
    } else {
        bytes_le(a.drop_first(), b.drop_first())
    }
}

/// The order of addresses: that of their UTF-8 bytes.
pub open spec fn addr_le(a: Seq<char>, b: Seq<char>) -> bool {
    bytes_le(encode_utf8(a), encode_utf8(b))
}

/// `nodes` is sorted by address.
pub open spec fn sorted_addrs(nodes: Seq<String>) -> bool {
    forall|i: int, j: int| 0 <= i <= j < nodes.len() ==> addr_le(nodes[i]@, nodes[j]@)
}

proof fn lemma_bytes_le_total(a: Seq<u8>, b: Seq<u8>)
    ensures
        bytes_le(a, b) || bytes_le(b, a),
    decreases a.len(),
{
    if a.len() > 0 && b.len() > 0 && a[0] == b[0] {
        lemma_bytes_le_total(a.drop_first(), b.drop_first());
    }
}

proof fn lemma_bytes_le_transitive(a: Seq<u8>, b: Seq<u8>, c: Seq<u8>)
    requires
        bytes_le(a, b),
        bytes_le(b, c),
    ensures
        bytes_le(a, c),
    decreases a.len(),
{
    if a.len() > 0 && b.len() > 0 && c.len() > 0 && a[0] == b[0] && b[0] == c[0] {
        lemma_bytes_le_transitive(a.drop_first(), b.drop_first(), c.drop_first());
    }
}

/// Whether `a` comes no later than `b` in byte order.
fn bytes_no_later(a: &[u8], b: &[u8]) -> (le: bool)
    ensures
        le == bytes_le(a@, b@),
{
    let mut i: usize = 0;
    assert(a@.skip(0) =~= a@ && b@.skip(0) =~= b@);
    while i < a.len()
        invariant
            0 <= i <= a.len(),
            i <= b.len(),
            a@.subrange(0, i as int) == b@.subrange(0, i as int),
            bytes_le(a@, b@) == bytes_le(a@.skip(i as int), b@.skip(i as int)),
        decreases a.len() - i,
    {
        if i >= b.len() {
            return false;
        }
        if a[i] != b[i] {
            return a[i] < b[i];
        }
        proof {
            assert(a@.skip(i as int).drop_first() =~= a@.skip(i + 1));
            assert(b@.skip(i as int).drop_first() =~= b@.skip(i + 1));
            assert(a@.subrange(0, i + 1) =~= a@.subrange(0, i as int).push(a[i as int]));
            assert(b@.subrange(0, i + 1) =~= b@.subrange(0, i as int).push(b[i as int]));
        }
        i = i + 1;
    }
    true
}

/// The addresses in byte order; equal addresses keep their order.
pub fn sort_addresses(addrs: Vec<String>) -> (nodes: Vec<String>)
    ensures
        sorted_addrs(nodes@),
        nodes@.to_multiset() == addrs@.to_multiset(),
{
    broadcast use vstd::seq_lib::group_to_multiset_ensures;

    let mut nodes: Vec<String> = Vec::new();
    let mut i: usize = 0;
    while i < addrs.len()
        invariant
            0 <= i <= addrs.len(),
            sorted_addrs(nodes@),
            nodes@.to_multiset() == addrs@.take(i as int).to_multiset(),
        decreases addrs.len() - i,
    {
        let x = addrs[i].clone();
        let mut pos: usize = 0;
        while pos < nodes.len() && bytes_no_later(nodes[pos].as_str().as_bytes(), x.as_str().as_bytes())
            invariant
                0 <= pos <= nodes.len(),
                forall|k: int| 0 <= k < pos ==> addr_le(#[trigger] nodes[k]@, x@),
            decreases nodes.len() - pos,
        {
            pos = pos + 1;
        }
        let ghost before = nodes@;
        nodes.insert(pos, x);
        proof {
            assert(nodes@ == before.insert(pos as int, addrs[i as int]));
            vstd::seq_lib::to_multiset_insert(before, pos as int, addrs[i as int]);
            assert(addrs@.take(i + 1) =~= addrs@.take(i as int).push(addrs[i as int]));
            vstd::seq_lib::to_multiset_build(addrs@.take(i as int), addrs[i as int]);
            if pos < before.len() {
                lemma_bytes_le_total(encode_utf8(before[pos as int]@), encode_utf8(x@));
            }
            assert forall|a: int, b: int| 0 <= a <= b < nodes@.len() implies addr_le(
                nodes@[a]@,
                nodes@[b]@,
            ) by {
                if a < pos && b == pos {
                } else if a == pos && b > pos {
                    assert(addr_le(before[pos as int]@, before[b - 1]@));
                    lemma_bytes_le_transitive(
                        encode_utf8(x@),
                        encode_utf8(before[pos as int]@),
                        encode_utf8(before[b - 1]@),
                    );
                } else if a == pos && b == pos {
                    lemma_bytes_le_total(encode_utf8(x@), encode_utf8(x@));
                }
            }
        }
        i = i + 1;
    }
    assert(addrs@.take(addrs.len() as int) =~= addrs@);
    nodes
}

/// The position of the last node whose address is `local`, or 0 when there is
/// none.
pub open spec fn local_position(nodes: Seq<String>, local: Seq<char>) -> int
    decreases nodes.len(),
{
    if nodes.len() == 0 {
        0
    } else if nodes.last()@ == local {
        nodes.len() - 1
    } else {
        local_position(nodes.drop_last(), local)
    }
}

/// The other nodes, each with its position as id, in order.
pub open spec fn other_members(nodes: Seq<String>, local: Seq<char>) -> Seq<(u32, Seq<char>)>
    decreases nodes.len(),
{
    if nodes.len() == 0 {
        Seq::empty()
    } else if nodes.last()@ == local {
        other_members(nodes.drop_last(), local)
    } else {
        other_members(nodes.drop_last(), local).push(((nodes.len() - 1) as u32, nodes.last()@))
    }
}

/// The numbering of the nodes, in terms of the addresses: the members are
/// exactly the nodes whose address is not `local`, each listed once with its
/// position, in increasing order of position, so the local node is never its
/// own peer. The local id is the last position holding `local`, or 0 when no
/// node has that address.
pub proof fn law_numbering(nodes: Seq<String>, local: Seq<char>)
    requires
        nodes.len() <= u32::MAX + 1,
    ensures
        forall|k: int|
            #![trigger other_members(nodes, local)[k]]
            0 <= k < other_members(nodes, local).len() ==> exists|i: int|
                0 <= i < nodes.len() && (#[trigger] nodes[i])@ != local && other_members(nodes, local)[k]
                    == (i as u32, nodes[i]@),
        forall|i: int|
            0 <= i < nodes.len() && (#[trigger] nodes[i])@ != local ==> exists|k: int|
                0 <= k < other_members(nodes, local).len() && other_members(nodes, local)[k] == (
                    i as u32,
                    nodes[i]@,
                ),
        forall|a: int, b: int|
            0 <= a < b < other_members(nodes, local).len() ==> other_members(nodes, local)[a].0
                < other_members(nodes, local)[b].0,
        forall|k: int|
            0 <= k < other_members(nodes, local).len() ==> other_members(nodes, local)[k].1 != local,
        forall|k: int|
            0 <= k < other_members(nodes, local).len() ==> other_members(nodes, local)[k].0 < nodes.len(),
        (exists|i: int| 0 <= i < nodes.len() && (#[trigger] nodes[i])@ == local) ==> {
            &&& 0 <= local_position(nodes, local) < nodes.len()
            &&& nodes[local_position(nodes, local)]@ == local
            &&& forall|j: int| local_position(nodes, local) < j < nodes.len() ==> (#[trigger] nodes[j])@ != local
        },
        (forall|i: int| 0 <= i < nodes.len() ==> (#[trigger] nodes[i])@ != local) ==> local_position(
            nodes,
            local,
        ) == 0,
    decreases nodes.len(),
{
    if nodes.len() > 0 {
        let init = nodes.drop_last();
        let n = nodes.len() - 1;
        let x = nodes.last();
        assert(nodes[n] == x);
        assert forall|i: int| 0 <= i < init.len() implies init[i] == nodes[i] by {}
        law_numbering(init, local);
        let om0 = other_members(init, local);
        let om = other_members(nodes, local);
        assert forall|k: int| #![trigger om[k]] 0 <= k < om.len() implies exists|i: int|
            0 <= i < nodes.len() && (#[trigger] nodes[i])@ != local && om[k] == (i as u32, nodes[i]@) by {
            if k < om0.len() {
                let i = choose|i: int|
                    0 <= i < init.len() && (#[trigger] init[i])@ != local && om0[k] == (i as u32, init[i]@);
                assert(nodes[i] == init[i]);
            } else {
                assert(nodes[n]@ != local);
            }
        }
        assert forall|i: int| 0 <= i < nodes.len() && (#[trigger] nodes[i])@ != local implies exists|k: int|
            0 <= k < om.len() && om[k] == (i as u32, nodes[i]@) by {
            if i < n {
                assert(init[i] == nodes[i]);
                let k = choose|k: int| 0 <= k < om0.len() && om0[k] == (i as u32, init[i]@);
                assert(om[k] == om0[k]);
            } else {
                assert(om[om0.len() as int] == (n as u32, x@));
            }
        }
        assert forall|a: int, b: int| 0 <= a < b < om.len() implies om[a].0 < om[b].0 by {
            if b == om0.len() && x@ != local {
                assert(om0[a].0 < init.len());
            }
        }
        if exists|i: int| 0 <= i < nodes.len() && (#[trigger] nodes[i])@ == local {
            if x@ != local {
                let i = choose|i: int| 0 <= i < nodes.len() && (#[trigger] nodes[i])@ == local;
                assert(init[i] == nodes[i]);
            }
        }
        if forall|i: int| 0 <= i < nodes.len() ==> (#[trigger] nodes[i])@ != local {
            assert forall|i: int| 0 <= i < init.len() implies (#[trigger] init[i])@ != local by {
                assert(init[i] == nodes[i]);
            }
        }
    }
}

/// Numbers the nodes by their position: the id of this node is the position
/// of `local`, and every other node is listed with its id and address.
pub fn assign_ids(local: &String, nodes: &Vec<String>) -> (layout: (usize, Vec<(u32, String)>))
    ensures
        layout.0 == local_position(nodes@, local@),
        layout.1@.map_values(|m: (u32, String)| (m.0, m.1@)) == other_members(nodes@, local@),
{
    let mut id: usize = 0;
    let mut members: Vec<(u32, String)> = Vec::new();
    let mut i: usize = 0;
    while i < nodes.len()
        invariant
            0 <= i <= nodes.len(),
            id == local_position(nodes@.take(i as int), local@),
            members@.map_values(|m: (u32, String)| (m.0, m.1@)) == other_members(
                nodes@.take(i as int),
                local@,
            ),
        decreases nodes.len() - i,
    {
        let ghost before = members@;
        proof {
            assert(nodes@.take(i + 1).drop_last() =~= nodes@.take(i as int));
            assert(nodes@.take(i + 1).last() == nodes@[i as int]);
        }
        if nodes[i] == *local {
            id = i;
        } else {
            members.push((i as u32, nodes[i].clone()));
            proof {
                assert(members@.map_values(|m: (u32, String)| (m.0, m.1@)) =~= before.map_values(
                    |m: (u32, String)| (m.0, m.1@),
                ).push((i as u32, nodes@[i as int]@)));
            }
        }
        i = i + 1;
    }
    assert(nodes@.take(nodes.len() as int) =~= nodes@);
    (id, members)
}

} // verus!
