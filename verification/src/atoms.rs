//! The atoms (boxes) that an MP4 file is made of.

use crate::bytes::{be32, be64, kind_at, law_kind_bytes, read_u32, read_u64, same_kind};
use crate::error::Mp4Error;
use crate::kinds::MOOV;
use vstd::prelude::*;

verus! {

/// Where an atom starts, where its content starts and ends, and its type.
#[derive(Debug, Clone, Copy, PartialEq, Eq)]
pub struct Atom {
    pub start: usize,
    pub payload: usize,
    pub end: usize,
    pub kind: [u8; 4],
}

/// The atom at `at` when its header takes `header` bytes and announces `size` bytes, with nothing
/// allowed past `end`.
pub open spec fn sized_atom(data: Seq<u8>, at: int, header: int, size: int, end: int) -> Result<
    Atom,
    Mp4Error,
> {
    if size > usize::MAX {
        Err(Mp4Error::AtomTooLarge)
    } else if at + size > usize::MAX {
        Err(Mp4Error::AtomEndOverflow)
    } else if size < header || at + size > end {
        Err(
            Mp4Error::InvalidAtomSize {
                at: at as usize,
                kind: kind_at(data, at + 4),
                size: size as usize,
                header: header as usize,
                limit: end as usize,
            },
        )
    } else {
        Ok(
            Atom {
                start: at as usize,
                payload: (at + header) as usize,
                end: (at + size) as usize,
                kind: kind_at(data, at + 4),
            },
        )
    }
}

/// The atom that starts at `at`, with nothing allowed past `end`: a 32-bit size and a type; size
/// one announces a 64-bit size after the type, size zero an atom that reaches to `end`.
pub open spec fn atom_at(data: Seq<u8>, at: int, end: int) -> Result<Atom, Mp4Error> {
    if end - at < 8 {
        Err(Mp4Error::TruncatedHeader)
    } else if at + 4 > data.len() {
        Err(Mp4Error::TruncatedInteger)
    } else if at + 8 > data.len() {
        Err(Mp4Error::OutOfBounds)
    } else if be32(data, at) == 1 {
        if end - at < 16 {
            Err(Mp4Error::TruncatedExtendedHeader)
        } else if at + 16 > data.len() {
            Err(Mp4Error::TruncatedInteger)
        } else {
            sized_atom(data, at, 16, be64(data, at + 8) as int, end)
        }
    } else if be32(data, at) == 0 {
        sized_atom(data, at, 8, end - at, end)
    } else {
        sized_atom(data, at, 8, be32(data, at) as int, end)
    }
}

/// `front` followed by a list of atoms that could be read, or the reason why it could not.
pub open spec fn prepend(front: Seq<Atom>, rest: Result<Seq<Atom>, Mp4Error>) -> Result<
    Seq<Atom>,
    Mp4Error,
> {
    match rest {
        Ok(atoms) => Ok(front + atoms),
        Err(error) => Err(error),
    }
}

/// The atoms that fill the bytes from `at` to `end` one after the other.
pub open spec fn atoms_in(data: Seq<u8>, at: int, end: int) -> Result<Seq<Atom>, Mp4Error>
    decreases end - at,
    when 0 <= at
{
    if at >= end {
        Ok(Seq::empty())
    } else {
        match atom_at(data, at, end) {
            Ok(atom) => prepend(seq![atom], atoms_in(data, atom.end as int, end)),
            Err(error) => Err(error),
        }
    }
}

/// Whether a returned list, or the reason why there is none, is the expected one.
pub open spec fn lists<T>(result: Result<Vec<T>, Mp4Error>, expected: Result<Seq<T>, Mp4Error>) -> bool {
    match result {
        Ok(list) => expected == Ok::<Seq<T>, Mp4Error>(list@),
        Err(error) => expected == Err::<Seq<T>, Mp4Error>(error),
    }
}

/// The first atom of a type.
pub open spec fn first_of_kind(atoms: Seq<Atom>, kind: [u8; 4]) -> Option<Atom>
    decreases atoms.len(),
{
    if atoms.len() == 0 {
        None
    } else if atoms[0].kind == kind {
        Some(atoms[0])
    } else {
        first_of_kind(atoms.drop_first(), kind)
    }
}

/// The first child of a type.
pub open spec fn child_of(data: Seq<u8>, parent: Atom, kind: [u8; 4]) -> Result<Atom, Mp4Error> {
    match atoms_in(data, parent.payload as int, parent.end as int) {
        Ok(children) => match first_of_kind(children, kind) {
            Some(atom) => Ok(atom),
            None => Err(Mp4Error::MissingChild { parent: parent.kind, child: kind }),
        },
        Err(error) => Err(error),
    }
}

/// The top-level atoms from `at` up to the first `moov` atom, which is the last of them.
pub open spec fn top_until_moov(data: Seq<u8>, at: int) -> Result<Seq<Atom>, Mp4Error>
    decreases data.len() - at,
    when 0 <= at
{
    match atom_at(data, at, data.len() as int) {
        Ok(atom) => if atom.kind == MOOV {
            Ok(seq![atom])
        } else {
            prepend(seq![atom], top_until_moov(data, atom.end as int))
        },
        Err(_) => Err(Mp4Error::NoCompleteMoov),
    }
}

/// The length of the header of the atom that `data` starts with.
pub open spec fn header_len(data: Seq<u8>) -> Result<int, Mp4Error> {
    if data.len() < 8 {
        Err(Mp4Error::TruncatedAtom)
    } else if be32(data, 0) == 1 {
        Ok(16int)
    } else {
        Ok(8int)
    }
}

/// Whether atoms lie one behind the other, without a gap, from `at` to `end`.
pub open spec fn tile(atoms: Seq<Atom>, at: int, end: int) -> bool {
    &&& forall|i: int|
        0 <= i < atoms.len() ==> (#[trigger] atoms[i]).start + 8 <= atoms[i].payload
            <= atoms[i].end
    &&& forall|i: int, k: int|
        0 <= i < k < atoms.len() && k == i + 1 ==> (#[trigger] atoms[i]).end == (
        #[trigger] atoms[k]).start
    &&& forall|i: int|
        0 <= i < atoms.len() ==> at <= (#[trigger] atoms[i]).start && atoms[i].end <= end
    &&& atoms.len() > 0 ==> atoms[0].start == at && atoms.last().end == end
}

/// The atoms read from a range of bytes fill that range: they lie one behind the other, from its
/// start to its end.
pub proof fn law_atoms_tile(data: Seq<u8>, at: int, end: int)
    requires
        0 <= at,
        atoms_in(data, at, end) is Ok,
    ensures
        tile(atoms_in(data, at, end)->Ok_0, at, end),
        at < end ==> atoms_in(data, at, end)->Ok_0.len() > 0,
    decreases end - at,
{
    if at < end {
        let atom = atom_at(data, at, end)->Ok_0;
        let rest = atoms_in(data, atom.end as int, end)->Ok_0;
        law_atoms_tile(data, atom.end as int, end);
        let all = seq![atom] + rest;
        assert forall|i: int, k: int| 0 <= i < k < all.len() && k == i + 1 implies (
        #[trigger] all[i]).end == (#[trigger] all[k]).start by {
            assert(all[k] == rest[k - 1]);
            if i > 0 {
                assert(all[i] == rest[i - 1]);
            }
        }
        if rest.len() > 0 {
            assert(all.last() == rest.last());
        }
    }
}

/// The first atom of a type is one of the atoms, and has the type.
pub proof fn lemma_first_of_kind(atoms: Seq<Atom>, kind: [u8; 4])
    ensures
        first_of_kind(atoms, kind) matches Some(atom) ==> atoms.contains(atom) && atom.kind == kind,
    decreases atoms.len(),
{
    if atoms.len() > 0 && atoms[0].kind != kind {
        lemma_first_of_kind(atoms.drop_first(), kind);
        if first_of_kind(atoms, kind) is Some {
            let atom = first_of_kind(atoms, kind)->0;
            let i = choose|i: int| 0 <= i < atoms.drop_first().len() && atoms.drop_first()[i] == atom;
            assert(atoms[i + 1] == atom);
        }
    } else if atoms.len() > 0 {
        assert(atoms.contains(atoms[0]));
    }
}

/// The `moov` atom that ends the top level lies inside the file.
pub proof fn lemma_top_moov(data: Seq<u8>, at: int)
    requires
        0 <= at,
        top_until_moov(data, at) is Ok,
    ensures
        ({
            let top = top_until_moov(data, at)->Ok_0;
            &&& top.len() > 0
            &&& top.last().kind == MOOV
            &&& top.last().start + 8 <= top.last().payload <= top.last().end <= data.len()
        }),
    decreases data.len() - at,
{
    let atom = atom_at(data, at, data.len() as int)->Ok_0;
    if atom.kind != MOOV {
        lemma_top_moov(data, atom.end as int);
        let rest = top_until_moov(data, atom.end as int)->Ok_0;
        assert((seq![atom] + rest).last() == rest.last());
    }
}

/// Each atom of a range is the atom that stands at its start.
pub proof fn lemma_listed_atom(data: Seq<u8>, at: int, end: int, i: int)
    requires
        0 <= at,
        atoms_in(data, at, end) is Ok,
        0 <= i < atoms_in(data, at, end)->Ok_0.len(),
    ensures
        ({
            let atom = atoms_in(data, at, end)->Ok_0[i];
            atom_at(data, atom.start as int, end) == Ok::<Atom, Mp4Error>(atom)
        }),
    decreases end - at,
{
    let first = atom_at(data, at, end)->Ok_0;
    if i > 0 {
        lemma_listed_atom(data, first.end as int, end, i - 1);
    }
}

/// Where all atoms of a file can be read, reading up to the first `moov` atom finds that atom, at the
/// end of a list that the whole list starts with; without a `moov` atom it finds none.
pub proof fn law_top_is_a_prefix(data: Seq<u8>, at: int)
    requires
        0 <= at,
        atoms_in(data, at, data.len() as int) is Ok,
    ensures
        ({
            let all = atoms_in(data, at, data.len() as int)->Ok_0;
            match first_of_kind(all, MOOV) {
                None => top_until_moov(data, at) == Err::<Seq<Atom>, Mp4Error>(
                    Mp4Error::NoCompleteMoov,
                ),
                Some(moov) => {
                    let top = top_until_moov(data, at)->Ok_0;
                    &&& top_until_moov(data, at) is Ok
                    &&& 0 < top.len() <= all.len()
                    &&& top == all.take(top.len() as int)
                    &&& top.last() == moov
                },
            }
        }),
    decreases data.len() - at,
{
    if at < data.len() {
        let first = atom_at(data, at, data.len() as int)->Ok_0;
        let rest = atoms_in(data, first.end as int, data.len() as int)->Ok_0;
        let all = seq![first] + rest;
        assert(all.drop_first() =~= rest);
        assert(all[0] == first);
        if first.kind == MOOV {
            assert(all.take(1) =~= seq![first]);
        } else {
            law_top_is_a_prefix(data, first.end as int);
            if first_of_kind(rest, MOOV) is Some {
                let top = top_until_moov(data, first.end as int)->Ok_0;
                assert(seq![first] + top =~= all.take(top.len() as int + 1));
                assert((seq![first] + top).last() == top.last());
            }
        }
    }
}

/// What is read of an atom: its type behind its size, and its end from its size. Size one stands for
/// a 64-bit size behind the type, size zero for all that is left.
pub proof fn law_atom_read(data: Seq<u8>, at: int, end: int)
    requires
        0 <= at,
        atom_at(data, at, end) is Ok,
    ensures
        ({
            let atom = atom_at(data, at, end)->Ok_0;
            &&& at + 8 <= data.len()
            &&& atom.start == at
            &&& atom.kind@ == seq![data[at + 4], data[at + 5], data[at + 6], data[at + 7]]
            &&& atom.payload == at + (if be32(data, at) == 1 {
                16int
            } else {
                8int
            })
            &&& atom.end == (if be32(data, at) == 1 {
                at + be64(data, at + 8)
            } else if be32(data, at) == 0 {
                end
            } else {
                at + be32(data, at)
            })
            &&& atom.payload <= atom.end <= end
        }),
{
    law_kind_bytes(data, at + 4);
}

/// An atom is read wherever its header is there, its size covers its header, and it ends in front of
/// the limit.
pub proof fn law_atom_readable(data: Seq<u8>, at: int, end: int)
    requires
        0 <= at,
        end <= data.len() <= usize::MAX,
    ensures
        atom_at(data, at, end) is Ok == {
            &&& at + 8 <= end
            &&& be32(data, at) == 0 || be32(data, at) == 1 || 8 <= be32(data, at) <= end - at
            &&& be32(data, at) == 1 ==> at + 16 <= end && 16 <= be64(data, at + 8) <= end - at
        },
{
}

/// Why an atom cannot be read: its header is not there, or its size does not cover its header or
/// reaches past the limit, which is said with its place, its type, its size and the limit.
pub proof fn law_atom_refused(data: Seq<u8>, at: int, end: int)
    requires
        0 <= at <= end <= data.len() <= usize::MAX,
    ensures
        end - at < 8 ==> atom_at(data, at, end) == Err::<Atom, Mp4Error>(Mp4Error::TruncatedHeader),
        8 <= end - at < 16 && be32(data, at) == 1 ==> atom_at(data, at, end) == Err::<Atom, Mp4Error>(
            Mp4Error::TruncatedExtendedHeader,
        ),
        8 <= end - at && be32(data, at) > 1 && (be32(data, at) < 8 || be32(data, at) > end - at) && at
            + be32(data, at) <= usize::MAX ==> {
            &&& atom_at(data, at, end) matches Err(Mp4Error::InvalidAtomSize {
                at: place,
                kind,
                size,
                header,
                limit,
            })
            &&& place == at && size == be32(data, at) && header == 8 && limit == end
            &&& kind@ == seq![data[at + 4], data[at + 5], data[at + 6], data[at + 7]]
        },
{
    law_kind_bytes(data, at + 4);
}

/// Atoms that lie one behind the other from the start of a file, each of them what is read at its
/// place, with the type `moov` for the last and no other, are what is read up to the first `moov`
/// atom, whatever stands behind it.
pub proof fn law_top_listed(data: Seq<u8>, at: int, atoms: Seq<Atom>)
    requires
        0 <= at,
        atoms.len() > 0,
        atoms[0].start == at,
        atoms.last().kind@ == seq![0x6du8, 0x6f, 0x6f, 0x76],
        forall|i: int|
            0 <= i < atoms.len() ==> atom_at(
                data,
                (#[trigger] atoms[i]).start as int,
                data.len() as int,
            ) == Ok::<Atom, Mp4Error>(atoms[i]),
        forall|i: int|
            0 <= i < atoms.len() - 1 ==> (#[trigger] atoms[i]).kind@ != seq![
                0x6du8,
                0x6f,
                0x6f,
                0x76,
            ],
        forall|i: int, k: int|
            0 <= i < k < atoms.len() && k == i + 1 ==> (#[trigger] atoms[i]).end == (
            #[trigger] atoms[k]).start,
    ensures
        top_until_moov(data, at) == Ok::<Seq<Atom>, Mp4Error>(atoms),
    decreases atoms.len(),
{
    let first = atoms[0];
    assert(MOOV@ =~= seq![0x6du8, 0x6f, 0x6f, 0x76]);
    assert(atom_at(data, at, data.len() as int) == Ok::<Atom, Mp4Error>(first));
    if atoms.len() == 1 {
        assert(first.kind =~= MOOV);
        assert(atoms =~= seq![first]);
    } else {
        let rest = atoms.drop_first();
        assert(rest[0] == atoms[1]);
        assert(rest.last() == atoms.last());
        assert(atoms[0].end == atoms[1].start);
        assert forall|i: int| 0 <= i < rest.len() implies atom_at(
            data,
            (#[trigger] rest[i]).start as int,
            data.len() as int,
        ) == Ok::<Atom, Mp4Error>(rest[i]) by {
            assert(rest[i] == atoms[i + 1]);
        }
        assert forall|i: int| 0 <= i < rest.len() - 1 implies (#[trigger] rest[i]).kind@
            != MOOV@ by {
            assert(rest[i] == atoms[i + 1]);
        }
        assert forall|i: int, k: int| 0 <= i < k < rest.len() && k == i + 1 implies (
        #[trigger] rest[i]).end == (#[trigger] rest[k]).start by {
            assert(rest[i] == atoms[i + 1]);
            assert(rest[k] == atoms[k + 1]);
        }
        law_top_listed(data, first.end as int, rest);
        assert(seq![first] + rest =~= atoms);
    }
}

/// Atoms that lie one behind the other from the start of a range to its end, each of them what is
/// read at its place, are what is read from the range.
pub proof fn law_atoms_listed(data: Seq<u8>, at: int, end: int, atoms: Seq<Atom>)
    requires
        0 <= at,
        atoms.len() == 0 ==> at >= end,
        atoms.len() > 0 ==> atoms[0].start == at < end && atoms.last().end == end,
        forall|i: int|
            0 <= i < atoms.len() ==> atom_at(data, (#[trigger] atoms[i]).start as int, end) == Ok::<
                Atom,
                Mp4Error,
            >(atoms[i]),
        forall|i: int, k: int|
            0 <= i < k < atoms.len() && k == i + 1 ==> (#[trigger] atoms[i]).end == (
            #[trigger] atoms[k]).start,
    ensures
        atoms_in(data, at, end) == Ok::<Seq<Atom>, Mp4Error>(atoms),
    decreases atoms.len(),
{
    if atoms.len() == 0 {
        assert(atoms =~= Seq::empty());
    } else {
        let first = atoms[0];
        let rest = atoms.drop_first();
        assert(atom_at(data, at, end) == Ok::<Atom, Mp4Error>(first));
        assert forall|i: int| 0 <= i < rest.len() implies atom_at(
            data,
            (#[trigger] rest[i]).start as int,
            end,
        ) == Ok::<Atom, Mp4Error>(rest[i]) by {
            assert(rest[i] == atoms[i + 1]);
        }
        assert forall|i: int, k: int| 0 <= i < k < rest.len() && k == i + 1 implies (
        #[trigger] rest[i]).end == (#[trigger] rest[k]).start by {
            assert(rest[i] == atoms[i + 1]);
            assert(rest[k] == atoms[k + 1]);
        }
        if rest.len() > 0 {
            assert(rest[0] == atoms[1]);
            assert(rest.last() == atoms.last());
            assert(atoms[0].end == atoms[1].start);
            assert(atom_at(data, rest[0].start as int, end) is Ok);
        }
        law_atoms_listed(data, first.end as int, end, rest);
        assert(seq![first] + rest =~= atoms);
    }
}

/// Each atom that is read from a range is what is read at its place.
pub proof fn law_atoms_in_place(data: Seq<u8>, at: int, end: int)
    requires
        0 <= at,
        atoms_in(data, at, end) is Ok,
    ensures
        forall|i: int|
            0 <= i < atoms_in(data, at, end)->Ok_0.len() ==> atom_at(
                data,
                (#[trigger] atoms_in(data, at, end)->Ok_0[i]).start as int,
                end,
            ) == Ok::<Atom, Mp4Error>(atoms_in(data, at, end)->Ok_0[i]),
{
    assert forall|i: int| 0 <= i < atoms_in(data, at, end)->Ok_0.len() implies atom_at(
        data,
        (#[trigger] atoms_in(data, at, end)->Ok_0[i]).start as int,
        end,
    ) == Ok::<Atom, Mp4Error>(atoms_in(data, at, end)->Ok_0[i]) by {
        lemma_listed_atom(data, at, end, i);
    }
}

/// Where the atoms of a range can be read up to some place and none can be read there, the reason is
/// that of this place.
pub proof fn law_atoms_refused(data: Seq<u8>, at: int, end: int, atoms: Seq<Atom>, stop: int)
    requires
        0 <= at,
        stop < end,
        atoms.len() == 0 ==> at == stop,
        atoms.len() > 0 ==> atoms[0].start == at && atoms.last().end == stop,
        forall|i: int|
            0 <= i < atoms.len() ==> atom_at(data, (#[trigger] atoms[i]).start as int, end) == Ok::<
                Atom,
                Mp4Error,
            >(atoms[i]),
        forall|i: int, k: int|
            0 <= i < k < atoms.len() && k == i + 1 ==> (#[trigger] atoms[i]).end == (
            #[trigger] atoms[k]).start,
        atom_at(data, stop, end) is Err,
    ensures
        atoms_in(data, at, end) == Err::<Seq<Atom>, Mp4Error>(atom_at(data, stop, end)->Err_0),
    decreases atoms.len(),
{
    if atoms.len() > 0 {
        let first = atoms[0];
        let rest = atoms.drop_first();
        assert(atom_at(data, at, end) == Ok::<Atom, Mp4Error>(first));
        assert forall|i: int| 0 <= i < rest.len() implies atom_at(
            data,
            (#[trigger] rest[i]).start as int,
            end,
        ) == Ok::<Atom, Mp4Error>(rest[i]) by {
            assert(rest[i] == atoms[i + 1]);
        }
        assert forall|i: int, k: int| 0 <= i < k < rest.len() && k == i + 1 implies (
        #[trigger] rest[i]).end == (#[trigger] rest[k]).start by {
            assert(rest[i] == atoms[i + 1]);
            assert(rest[k] == atoms[k + 1]);
        }
        if rest.len() > 0 {
            assert(rest[0] == atoms[1]);
            assert(rest.last() == atoms.last());
            assert(atoms[0].end == atoms[1].start);
        }
        law_atoms_refused(data, first.end as int, end, rest, stop);
    }
}

/// The first atom of a type has the type, and none in front of it has; there is none where no atom
/// has the type.
pub proof fn law_first_of_kind(atoms: Seq<Atom>, kind: [u8; 4])
    ensures
        match first_of_kind(atoms, kind) {
            Some(atom) => exists|k: int|
                0 <= k < atoms.len() && #[trigger] atoms[k] == atom && atom.kind == kind && forall|
                    i: int,
                |
                    0 <= i < k ==> (#[trigger] atoms[i]).kind != kind,
            None => forall|i: int| 0 <= i < atoms.len() ==> (#[trigger] atoms[i]).kind != kind,
        },
    decreases atoms.len(),
{
    if atoms.len() > 0 {
        let rest = atoms.drop_first();
        if atoms[0].kind == kind {
            assert(atoms[0] == first_of_kind(atoms, kind)->0);
        } else {
            law_first_of_kind(rest, kind);
            if first_of_kind(rest, kind) is Some {
                let atom = first_of_kind(rest, kind)->0;
                let k = choose|k: int|
                    0 <= k < rest.len() && #[trigger] rest[k] == atom && atom.kind == kind && forall|
                        i: int,
                    |
                        0 <= i < k ==> (#[trigger] rest[i]).kind != kind;
                assert(atoms[k + 1] == atom);
                assert forall|i: int| 0 <= i < k + 1 implies (#[trigger] atoms[i]).kind
                    != kind by {
                    if i > 0 {
                        assert(rest[i - 1] == atoms[i]);
                    }
                }
            } else {
                assert forall|i: int| 0 <= i < atoms.len() implies (#[trigger] atoms[i]).kind
                    != kind by {
                    if i > 0 {
                        assert(rest[i - 1] == atoms[i]);
                    }
                }
            }
        }
    }
}

/// The child of a type is the first among the children that has it; without one the parent and the
/// type are named.
pub proof fn law_child(data: Seq<u8>, parent: Atom, kind: [u8; 4])
    requires
        atoms_in(data, parent.payload as int, parent.end as int) is Ok,
    ensures
        ({
            let children = atoms_in(data, parent.payload as int, parent.end as int)->Ok_0;
            match child_of(data, parent, kind) {
                Ok(child) => exists|k: int|
                    0 <= k < children.len() && #[trigger] children[k] == child && child.kind == kind
                        && forall|i: int| 0 <= i < k ==> (#[trigger] children[i]).kind != kind,
                Err(error) => {
                    &&& error == (Mp4Error::MissingChild { parent: parent.kind, child: kind })
                    &&& forall|i: int|
                        0 <= i < children.len() ==> (#[trigger] children[i]).kind != kind
                },
            }
        }),
{
    law_first_of_kind(
        atoms_in(data, parent.payload as int, parent.end as int)->Ok_0,
        kind,
    );
}

/// The top level up to the first `moov` atom: atoms one behind the other from the start on, each
/// what is read at its place, the last of them and no other with the type `moov`.
pub proof fn law_top_read(data: Seq<u8>, at: int)
    requires
        0 <= at,
        top_until_moov(data, at) is Ok,
    ensures
        ({
            let top = top_until_moov(data, at)->Ok_0;
            &&& top.len() > 0
            &&& top[0].start == at
            &&& top.last().kind@ == seq![0x6du8, 0x6f, 0x6f, 0x76]
            &&& forall|i: int|
                0 <= i < top.len() ==> atom_at(
                    data,
                    (#[trigger] top[i]).start as int,
                    data.len() as int,
                ) == Ok::<Atom, Mp4Error>(top[i])
            &&& forall|i: int|
                0 <= i < top.len() - 1 ==> (#[trigger] top[i]).kind@ != seq![
                    0x6du8,
                    0x6f,
                    0x6f,
                    0x76,
                ]
            &&& forall|i: int, k: int|
                0 <= i < k < top.len() && k == i + 1 ==> (#[trigger] top[i]).end == (
                #[trigger] top[k]).start
        }),
    decreases data.len() - at,
{
    let atom = atom_at(data, at, data.len() as int)->Ok_0;
    let name = seq![0x6du8, 0x6f, 0x6f, 0x76];
    assert(MOOV@ =~= name);
    if atom.kind == MOOV {
        assert(top_until_moov(data, at)->Ok_0 == seq![atom]);
    } else {
        if atom.kind@ == name {
            assert(atom.kind =~= MOOV);
        }
        law_top_read(data, atom.end as int);
        let rest = top_until_moov(data, atom.end as int)->Ok_0;
        let top = seq![atom] + rest;
        assert(top.last() == rest.last());
        assert forall|i: int| 0 <= i < top.len() implies atom_at(
            data,
            (#[trigger] top[i]).start as int,
            data.len() as int,
        ) == Ok::<Atom, Mp4Error>(top[i]) by {
            if i > 0 {
                assert(top[i] == rest[i - 1]);
            }
        }
        assert forall|i: int| 0 <= i < top.len() - 1 implies (#[trigger] top[i]).kind@
            != name by {
            if i > 0 {
                assert(top[i] == rest[i - 1]);
            }
        }
        assert forall|i: int, k: int| 0 <= i < k < top.len() && k == i + 1 implies (
        #[trigger] top[i]).end == (#[trigger] top[k]).start by {
            assert(top[k] == rest[k - 1]);
            if i > 0 {
                assert(top[i] == rest[i - 1]);
            }
        }
    }
}

/// The header that an atom starts with is as long as the atom is read with.
pub proof fn law_header_read(data: Seq<u8>, end: int)
    requires
        atom_at(data, 0, end) is Ok,
    ensures
        header_len(data) == Ok::<int, Mp4Error>(atom_at(data, 0, end)->Ok_0.payload as int),
{
}

/// Reads the atom that starts at `cursor`, with nothing allowed past `end`.
fn parse_atom(data: &[u8], cursor: usize, end: usize) -> (result: Result<Atom, Mp4Error>)
    requires
        cursor <= end,
    ensures
        result == atom_at(data@, cursor as int, end as int),
{
    if end - cursor < 8 {
        return Err(Mp4Error::TruncatedHeader);
    }
    let size32: u32 = read_u32(data, cursor)?;
    if data.len() < 8 || cursor > data.len() - 8 {
        return Err(Mp4Error::OutOfBounds);
    }
    let kind = [data[cursor + 4], data[cursor + 5], data[cursor + 6], data[cursor + 7]];
    proof {
        reveal(kind_at);
    }
    let mut header: usize = 8;
    let mut size64: u64 = size32 as u64;
    if size32 == 1 {
        if end - cursor < 16 {
            return Err(Mp4Error::TruncatedExtendedHeader);
        }
        header = 16;
        size64 = read_u64(data, cursor + 8)?;
    } else if size32 == 0 {
        size64 = (end - cursor) as u64;
    }
    if size64 > usize::MAX as u64 {
        return Err(Mp4Error::AtomTooLarge);
    }
    let size: usize = size64 as usize;
    let atom_end: usize = match cursor.checked_add(size) {
        Some(atom_end) => atom_end,
        None => {
            return Err(Mp4Error::AtomEndOverflow);
        },
    };
    if size < header || atom_end > end {
        return Err(Mp4Error::InvalidAtomSize { at: cursor, kind, size, header, limit: end });
    }
    Ok(Atom { start: cursor, payload: cursor + header, end: atom_end, kind })
}

/// Reads the atoms that fill `data[start..end]`.
pub fn parse_atoms(data: &[u8], start: usize, end: usize) -> (result: Result<Vec<Atom>, Mp4Error>)
    ensures
        lists(result, atoms_in(data@, start as int, end as int)),
{
    let mut atoms: Vec<Atom> = Vec::new();
    let mut cursor: usize = start;
    proof {
        let all = atoms_in(data@, start as int, end as int);
        if all is Ok {
            assert(atoms@ + all->Ok_0 =~= all->Ok_0);
        }
    }
    while cursor < end
        invariant
            start <= cursor,
            atoms_in(data@, start as int, end as int) == prepend(
                atoms@,
                atoms_in(data@, cursor as int, end as int),
            ),
        decreases end - cursor,
    {
        let atom = parse_atom(data, cursor, end)?;
        proof {
            let rest = atoms_in(data@, atom.end as int, end as int);
            if rest is Ok {
                assert(atoms@ + (seq![atom] + rest->Ok_0) =~= atoms@.push(atom) + rest->Ok_0);
            }
        }
        atoms.push(atom);
        cursor = atom.end;
    }
    proof {
        assert(atoms@ + Seq::<Atom>::empty() =~= atoms@);
    }
    Ok(atoms)
}

/// Reads the top-level atoms up to the first complete `moov` atom.
pub fn parse_top_until_moov(data: &[u8]) -> (result: Result<Vec<Atom>, Mp4Error>)
    ensures
        lists(result, top_until_moov(data@, 0)),
{
    let mut atoms: Vec<Atom> = Vec::new();
    let mut cursor: usize = 0;
    proof {
        let all = top_until_moov(data@, 0);
        if all is Ok {
            assert(atoms@ + all->Ok_0 =~= all->Ok_0);
        }
    }
    while cursor < data.len()
        invariant
            cursor <= data@.len(),
            top_until_moov(data@, 0) == prepend(atoms@, top_until_moov(data@, cursor as int)),
        decreases data@.len() - cursor,
    {
        let atom = match parse_atom(data, cursor, data.len()) {
            Ok(atom) => atom,
            Err(_) => {
                return Err(Mp4Error::NoCompleteMoov);
            },
        };
        let last = same_kind(&atom.kind, &MOOV);
        proof {
            let rest = top_until_moov(data@, atom.end as int);
            if !last && rest is Ok {
                assert(atoms@ + (seq![atom] + rest->Ok_0) =~= atoms@.push(atom) + rest->Ok_0);
            }
            assert(atoms@ + seq![atom] =~= atoms@.push(atom));
        }
        atoms.push(atom);
        cursor = atom.end;
        if last {
            return Ok(atoms);
        }
    }
    Err(Mp4Error::NoCompleteMoov)
}

/// Finds the first atom of a type.
pub fn find_kind(atoms: &Vec<Atom>, kind: &[u8; 4]) -> (found: Option<Atom>)
    ensures
        found == first_of_kind(atoms@, *kind),
{
    let mut index: usize = 0;
    proof {
        assert(atoms@.skip(0) =~= atoms@);
    }
    while index < atoms.len()
        invariant
            index <= atoms@.len(),
            first_of_kind(atoms@, *kind) == first_of_kind(atoms@.skip(index as int), *kind),
        decreases atoms@.len() - index,
    {
        if same_kind(&atoms[index].kind, kind) {
            return Some(atoms[index]);
        }
        proof {
            assert(atoms@.skip(index as int).drop_first() =~= atoms@.skip(index + 1));
        }
        index += 1;
    }
    None
}

/// Finds the first child of a type.
pub fn child(data: &[u8], parent: Atom, kind: &[u8; 4]) -> (result: Result<Atom, Mp4Error>)
    ensures
        result == child_of(data@, parent, *kind),
{
    let children = parse_atoms(data, parent.payload, parent.end)?;
    match find_kind(&children, kind) {
        Some(atom) => Ok(atom),
        None => Err(Mp4Error::MissingChild { parent: parent.kind, child: *kind }),
    }
}

/// The length of the header of the atom that `data` starts with.
pub fn atom_header_len(data: &[u8]) -> (result: Result<usize, Mp4Error>)
    ensures
        match result {
            Ok(length) => header_len(data@) == Ok::<int, Mp4Error>(length as int),
            Err(error) => header_len(data@) == Err::<int, Mp4Error>(error),
        },
{
    if data.len() < 8 {
        return Err(Mp4Error::TruncatedAtom);
    }
    let size32: u32 = read_u32(data, 0)?;
    Ok(if size32 == 1 { 16 } else { 8 })
}

} // verus!
