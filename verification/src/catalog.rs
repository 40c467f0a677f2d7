//! The definition catalog: message definitions keyed by frame identifier,
//! and whole-message decoding.

use vstd::prelude::*;
use vstd::pervasive::VecAdditionalExecFns;
use crate::signal::SignalLayout;
use crate::signal::DecodedSignal;
use crate::signal::signal_ok;
use crate::signal::decoded_of;
use crate::signal::decode_signal;

verus! {

/// Definition of one message: its frame identifier, whether that
/// identifier is the extended 29-bit form, its name, and the layouts of
/// the signals its payload carries.
pub struct MessageDef {
    /// Numeric frame identifier the definition applies to.
    pub msg_id: u32,
    /// Whether the identifier is the extended 29-bit form rather than the
    /// standard 11-bit form.
    pub is_extended: bool,
    /// Name of the message.
    pub name: String,
    /// Layouts of the signals carried by the message's payload.
    pub signals: Vec<SignalLayout>,
}

/// `a` carries the same definition as `b`: same identifier, flag, name,
/// and signal layouts.
pub open spec fn def_like(a: MessageDef, b: MessageDef) -> bool {
    &&& a.msg_id == b.msg_id
    &&& a.is_extended == b.is_extended
    &&& a.name == b.name
    &&& a.signals@ == b.signals@
}

/// Copies every signal layout of `v`, preserving values and order.
fn clone_layouts(v: &Vec<SignalLayout>) -> (r: Vec<SignalLayout>)
    ensures
        r@ == v@,
{
    let mut out: Vec<SignalLayout> = Vec::new();
    let mut i: usize = 0;
    while i < v.len()
        invariant
            i <= v@.len(),
            out@ =~= v@.subrange(0, i as int),
        decreases v@.len() - i,
    {
        out.push(v[i].clone());
        proof {
            assert(out@ =~= v@.subrange(0, i + 1));
        }
        i = i + 1;
    }
    proof {
        assert(out@ =~= v@);
    }
    out
}

impl Clone for MessageDef {
    /// A copy that carries the same definition.
    fn clone(&self) -> (r: Self)
        ensures
            def_like(r, *self),
    {
        MessageDef {
            msg_id: self.msg_id,
            is_extended: self.is_extended,
            name: self.name.clone(),
            signals: clone_layouts(&self.signals),
        }
    }
}

/// Some definition in `defs` has identifier `msg_id`.
pub open spec fn has_id(defs: Seq<MessageDef>, msg_id: u32) -> bool {
    exists|i: int| 0 <= i < defs.len() && (#[trigger] defs[i]).msg_id == msg_id
}

/// An index of a definition with identifier `msg_id`; meaningful only
/// when `has_id` holds, and unique when identifiers are unique.
pub open spec fn id_index(defs: Seq<MessageDef>, msg_id: u32) -> int {
    choose|i: int| 0 <= i < defs.len() && (#[trigger] defs[i]).msg_id == msg_id
}

/// The definition in `defs` with identifier `msg_id`, if any.
pub open spec fn catalog_lookup(defs: Seq<MessageDef>, msg_id: u32) -> Option<MessageDef> {
    if has_id(defs, msg_id) {
        Some(defs[id_index(defs, msg_id)])
    } else {
        None
    }
}

/// No two definitions share a frame identifier.
pub open spec fn unique_ids(defs: Seq<MessageDef>) -> bool {
    forall|i: int, j: int|
        0 <= i < j < defs.len() ==> (#[trigger] defs[i]).msg_id != (#[trigger] defs[j]).msg_id
}

/// Under unique identifiers, looking up the identifier of the definition
/// at index `i` finds exactly that definition.
proof fn lemma_lookup_at(defs: Seq<MessageDef>, i: int)
    requires
        unique_ids(defs),
        0 <= i < defs.len(),
    ensures
        catalog_lookup(defs, defs[i].msg_id) == Some(defs[i]),
{
    let id = defs[i].msg_id;
    assert(has_id(defs, id));
    let j = id_index(defs, id);
    assert(0 <= j < defs.len() && defs[j].msg_id == id);
    if i != j {
        assert(false);
    }
}

/// The most recent definition in `defs` with identifier `id`, if any:
/// when a batch is loaded in order, the last definition wins.
pub open spec fn last_def_with(defs: Seq<MessageDef>, id: u32) -> Option<MessageDef>
    decreases defs.len(),
{
    if defs.len() == 0 {
        None
    } else if defs.last().msg_id == id {
        Some(defs.last())
    } else {
        last_def_with(defs.drop_last(), id)
    }
}

/// The decoded records for `layouts` against `data`, in layout order,
/// keeping exactly the signals whose spans can be read.
pub open spec fn decode_list(layouts: Seq<SignalLayout>, data: Seq<u8>) -> Seq<DecodedSignal>
    decreases layouts.len(),
{
    if layouts.len() == 0 {
        Seq::empty()
    } else {
        let rest = decode_list(layouts.drop_last(), data);
        if signal_ok(layouts.last(), data) {
            rest.push(decoded_of(layouts.last(), data))
        } else {
            rest
        }
    }
}

/// A whole decoded message: the frame identifier it was decoded for, the
/// definition's name and extended-identifier flag, and one record per
/// signal whose span could be read. A signal whose span cannot be read is
/// simply absent; its siblings are unaffected.
pub struct DecodedMessage {
    /// Name of the message, from its definition.
    pub name: String,
    /// The frame identifier the caller asked to decode.
    pub msg_id: u32,
    /// Whether the definition's identifier is the extended 29-bit form.
    pub is_extended: bool,
    /// The decoded signals, in the order their layouts appear in the
    /// definition.
    pub signals: Vec<DecodedSignal>,
}

impl Clone for DecodedMessage {
    /// A copy with the same name, identifier, flag, and decoded signals.
    fn clone(&self) -> (r: Self)
        ensures
            r.name == self.name,
            r.msg_id == self.msg_id,
            r.is_extended == self.is_extended,
            r.signals@ == self.signals@,
    {
        let mut out: Vec<DecodedSignal> = Vec::new();
        let mut i: usize = 0;
        while i < self.signals.len()
            invariant
                i <= self.signals@.len(),
                out@ =~= self.signals@.subrange(0, i as int),
            decreases self.signals@.len() - i,
        {
            out.push(self.signals[i].clone());
            proof {
                assert(out@ =~= self.signals@.subrange(0, i + 1));
            }
            i = i + 1;
        }
        proof {
            assert(out@ =~= self.signals@);
        }
        DecodedMessage {
            name: self.name.clone(),
            msg_id: self.msg_id,
            is_extended: self.is_extended,
            signals: out,
        }
    }
}

/// The catalog of loaded message definitions, keyed by frame identifier.
///
/// Identifiers are unique: loading a definition for an identifier that is
/// already present replaces the earlier definition, so the last loaded
/// one wins.
pub struct Parser {
    defs: Vec<MessageDef>,
}

impl View for Parser {
    type V = Seq<MessageDef>;

    closed spec fn view(&self) -> Seq<MessageDef> {
        self.defs@
    }
}

impl Parser {
    /// The catalog's invariant: frame identifiers are unique.
    pub open spec fn wf(self) -> bool {
        unique_ids(self@)
    }

    /// Creates an empty catalog.
    pub fn new() -> (r: Parser)
        ensures
            r@ == Seq::<MessageDef>::empty(),
            r.wf(),
    {
        Parser { defs: Vec::new() }
    }

    /// Index of the definition with identifier `msg_id`, if one is loaded.
    fn find_index(&self, msg_id: u32) -> (r: Option<usize>)
        ensures
            match r {
                Some(i) => i < self@.len() && self@[i as int].msg_id == msg_id,
                None => !has_id(self@, msg_id),
            },
    {
        let mut i: usize = 0;
        while i < self.defs.len()
            invariant
                i <= self@.len(),
                forall|k: int| 0 <= k < i ==> (#[trigger] self@[k]).msg_id != msg_id,
            decreases self@.len() - i,
        {
            if self.defs[i].msg_id == msg_id {
                return Some(i);
            }
            i = i + 1;
        }
        None
    }

    /// The loaded definition for `msg_id`, or `None` when that frame
    /// identifier is unknown.
    pub fn lookup(&self, msg_id: u32) -> (r: Option<&MessageDef>)
        requires
            self.wf(),
        ensures
            r.is_some() <==> has_id(self@, msg_id),
            match r {
                Some(d) => catalog_lookup(self@, msg_id) == Some(*d),
                None => catalog_lookup(self@, msg_id).is_none(),
            },
    {
        match self.find_index(msg_id) {
            Some(i) => {
                proof {
                    lemma_lookup_at(self@, i as int);
                }
                Some(&self.defs[i])
            },
            None => None,
        }
    }

    /// Loads one definition. If a definition with the same frame
    /// identifier is already present it is replaced — the last loaded
    /// definition wins — and `true` is returned so the caller can report
    /// the duplicate; definitions for other identifiers are untouched.
    pub fn add_def(&mut self, def: MessageDef) -> (replaced: bool)
        requires
            old(self).wf(),
        ensures
            final(self).wf(),
            catalog_lookup(final(self)@, def.msg_id) == Some(def),
            forall|other: u32|
                other != def.msg_id ==> #[trigger] catalog_lookup(final(self)@, other)
                    == catalog_lookup(old(self)@, other),
            replaced == has_id(old(self)@, def.msg_id),
    {
        let ghost prev = self@;
        let ghost id = def.msg_id;
        match self.find_index(def.msg_id) {
            Some(i) => {
                self.defs.set(i, def);
                proof {
                    assert(self@ == prev.update(i as int, def));
                    assert forall|a: int, b: int| 0 <= a < b < self@.len() implies (
                    #[trigger] self@[a]).msg_id != (#[trigger] self@[b]).msg_id by {
                        if a != i as int && b != i as int {
                            assert(self@[a] == prev[a] && self@[b] == prev[b]);
                        } else if a == i as int {
                            assert(self@[b] == prev[b] && prev[i as int].msg_id == id);
                        } else {
                            assert(self@[a] == prev[a] && prev[i as int].msg_id == id);
                        }
                    }
                    lemma_lookup_at(self@, i as int);
                    assert forall|other: u32| other != id implies #[trigger] catalog_lookup(
                        self@,
                        other,
                    ) == catalog_lookup(prev, other) by {
                        lemma_update_preserves_lookup(prev, i as int, def, other);
                    }
                }
                true
            },
            None => {
                self.defs.push(def);
                proof {
                    assert(self@ == prev.push(def));
                    let n = prev.len() as int;
                    assert forall|a: int, b: int| 0 <= a < b < self@.len() implies (
                    #[trigger] self@[a]).msg_id != (#[trigger] self@[b]).msg_id by {
                        if b < n {
                            assert(self@[a] == prev[a] && self@[b] == prev[b]);
                        } else {
                            assert(self@[a] == prev[a] && self@[b] == def);
                            assert(!has_id(prev, id));
                        }
                    }
                    lemma_lookup_at(self@, n);
                    assert forall|other: u32| other != id implies #[trigger] catalog_lookup(
                        self@,
                        other,
                    ) == catalog_lookup(prev, other) by {
                        lemma_push_preserves_lookup(prev, def, other);
                    }
                }
                false
            },
        }
    }

    /// Loads a batch of definitions in order. For every frame identifier,
    /// the last definition of the batch with that identifier ends up in
    /// the catalog; identifiers the batch does not mention keep whatever
    /// definition they had.
    pub fn add_defs(&mut self, defs: Vec<MessageDef>) -> (replaced: usize)
        requires
            old(self).wf(),
        ensures
            final(self).wf(),
            forall|id: u32|
                #[trigger] catalog_lookup(final(self)@, id) == match last_def_with(defs@, id) {
                    Some(d) => Some(d),
                    None => catalog_lookup(old(self)@, id),
                },
            replaced <= defs@.len(),
    {
        let ghost prev = self@;
        let ghost all = defs@;
        let mut rest = defs;
        let total: usize = rest.len();
        proof {
            assert(all.len() == total);
        }
        let mut count: usize = 0;
        let ghost mut done: int = 0;
        while rest.len() > 0
            invariant
                self.wf(),
                all.len() <= usize::MAX,
                0 <= done <= all.len(),
                rest@ == all.skip(done),
                count <= done,
                forall|id: u32|
                    #[trigger] catalog_lookup(self@, id) == match last_def_with(
                        all.take(done),
                        id,
                    ) {
                        Some(d) => Some(d),
                        None => catalog_lookup(prev, id),
                    },
            decreases rest@.len(),
        {
            let d = rest.remove(0);
            let ghost snapshot = self@;
            assert(d == all[done]);
            let was_replaced = self.add_def(d);
            if was_replaced {
                count = count + 1;
            }
            proof {
                assert(rest@ =~= all.skip(done + 1));
                assert(all.take(done + 1).drop_last() =~= all.take(done));
                assert(all.take(done + 1).last() == all[done]);
                assert forall|id: u32|
                    #[trigger] catalog_lookup(self@, id) == match last_def_with(
                        all.take(done + 1),
                        id,
                    ) {
                        Some(dd) => Some(dd),
                        None => catalog_lookup(prev, id),
                    } by {
                    if id == all[done].msg_id {
                        assert(last_def_with(all.take(done + 1), id) == Some(all[done]));
                    } else {
                        assert(last_def_with(all.take(done + 1), id) == last_def_with(
                            all.take(done),
                            id,
                        ));
                        assert(catalog_lookup(self@, id) == catalog_lookup(snapshot, id));
                    }
                }
                done = done + 1;
            }
        }
        proof {
            assert(all.take(done) =~= all);
        }
        count
    }

    /// Empties the catalog: afterwards no frame identifier is known.
    pub fn clear(&mut self)
        ensures
            final(self)@ == Seq::<MessageDef>::empty(),
            final(self).wf(),
    {
        self.defs.clear();
    }

    /// A copy of the signal layouts of the message with identifier
    /// `msg_id`, or `None` when that identifier is unknown.
    pub fn signal_defs_for_msg(&self, msg_id: u32) -> (r: Option<Vec<SignalLayout>>)
        requires
            self.wf(),
        ensures
            r.is_some() <==> has_id(self@, msg_id),
            match r {
                Some(v) => catalog_lookup(self@, msg_id).is_some() && v@ == catalog_lookup(
                    self@,
                    msg_id,
                ).unwrap().signals@,
                None => true,
            },
    {
        match self.lookup(msg_id) {
            Some(d) => Some(clone_layouts(&d.signals)),
            None => None,
        }
    }

    /// A copy of every loaded definition, in the order the identifiers
    /// were first loaded.
    pub fn msg_defs(&self) -> (r: Vec<MessageDef>)
        ensures
            r@.len() == self@.len(),
            forall|i: int| 0 <= i < self@.len() ==> def_like(#[trigger] r@[i], self@[i]),
    {
        let mut out: Vec<MessageDef> = Vec::new();
        let mut i: usize = 0;
        while i < self.defs.len()
            invariant
                i <= self@.len(),
                out@.len() == i,
                forall|k: int| 0 <= k < i ==> def_like(#[trigger] out@[k], self@[k]),
            decreases self@.len() - i,
        {
            out.push(self.defs[i].clone());
            i = i + 1;
        }
        out
    }

    /// Decodes a whole frame: returns `None` exactly when `msg_id` is
    /// unknown to the catalog; otherwise a message holding one record per
    /// signal layout whose span could be read from `data`, in layout
    /// order. A failing signal is left out without affecting the others,
    /// so a message with zero decoded signals is still distinguishable
    /// from an unknown identifier.
    pub fn decode_msg(&self, msg_id: u32, data: &[u8]) -> (r: Option<DecodedMessage>)
        requires
            self.wf(),
        ensures
            r.is_some() <==> has_id(self@, msg_id),
            match r {
                Some(m) => catalog_lookup(self@, msg_id).is_some() && {
                    let d = catalog_lookup(self@, msg_id).unwrap();
                    &&& m.msg_id == msg_id
                    &&& m.name == d.name
                    &&& m.is_extended == d.is_extended
                    &&& m.signals@ == decode_list(d.signals@, data@)
                },
                None => true,
            },
    {
        let d = match self.lookup(msg_id) {
            Some(d) => d,
            None => {
                return None;
            },
        };
        let mut decoded: Vec<DecodedSignal> = Vec::new();
        let mut i: usize = 0;
        while i < d.signals.len()
            invariant
                i <= d.signals@.len(),
                decoded@ == decode_list(d.signals@.subrange(0, i as int), data@),
            decreases d.signals@.len() - i,
        {
            match decode_signal(&d.signals[i], data) {
                Some(s) => decoded.push(s),
                None => {},
            }
            proof {
                let taken = d.signals@.subrange(0, i + 1);
                assert(taken.drop_last() =~= d.signals@.subrange(0, i as int));
                assert(taken.last() == d.signals@[i as int]);
            }
            i = i + 1;
        }
        proof {
            assert(d.signals@.subrange(0, d.signals@.len() as int) =~= d.signals@);
        }
        Some(
            DecodedMessage {
                name: d.name.clone(),
                msg_id,
                is_extended: d.is_extended,
                signals: decoded,
            },
        )
    }
}

impl Default for Parser {
    /// An empty catalog, as `new` returns.
    fn default() -> (r: Parser)
        ensures
            r@ == Seq::<MessageDef>::empty(),
            r.wf(),
    {
        Parser::new()
    }
}

/// Replacing the definition at index `i` does not change what any other
/// frame identifier looks up.
proof fn lemma_update_preserves_lookup(prev: Seq<MessageDef>, i: int, def: MessageDef, other: u32)
    requires
        unique_ids(prev),
        0 <= i < prev.len(),
        prev[i].msg_id == def.msg_id,
        other != def.msg_id,
    ensures
        catalog_lookup(prev.update(i, def), other) == catalog_lookup(prev, other),
{
    let cur = prev.update(i, def);
    assert(unique_ids(cur)) by {
        assert forall|a: int, b: int| 0 <= a < b < cur.len() implies (#[trigger] cur[a]).msg_id != (
        #[trigger] cur[b]).msg_id by {
            if a != i && b != i {
                assert(cur[a] == prev[a] && cur[b] == prev[b]);
            } else if a == i {
                assert(cur[b] == prev[b] && prev[i].msg_id == def.msg_id);
            } else {
                assert(cur[a] == prev[a] && prev[i].msg_id == def.msg_id);
            }
        }
    }
    if has_id(prev, other) {
        let j = id_index(prev, other);
        assert(0 <= j < prev.len() && prev[j].msg_id == other);
        assert(j != i);
        assert(cur[j] == prev[j]);
        lemma_lookup_at(prev, j);
        lemma_lookup_at(cur, j);
    } else {
        if has_id(cur, other) {
            let j = id_index(cur, other);
            assert(0 <= j < cur.len() && cur[j].msg_id == other);
            assert(j != i);
            assert(cur[j] == prev[j]);
            assert(has_id(prev, other));
        }
    }
}

/// Appending a definition does not change what any other frame
/// identifier looks up.
proof fn lemma_push_preserves_lookup(prev: Seq<MessageDef>, def: MessageDef, other: u32)
    requires
        unique_ids(prev),
        !has_id(prev, def.msg_id),
        other != def.msg_id,
    ensures
        catalog_lookup(prev.push(def), other) == catalog_lookup(prev, other),
{
    let cur = prev.push(def);
    let n = prev.len() as int;
    assert(unique_ids(cur)) by {
        assert forall|a: int, b: int| 0 <= a < b < cur.len() implies (#[trigger] cur[a]).msg_id != (
        #[trigger] cur[b]).msg_id by {
            if b < n {
                assert(cur[a] == prev[a] && cur[b] == prev[b]);
            } else {
                assert(cur[a] == prev[a] && cur[b] == def);
            }
        }
    }
    if has_id(prev, other) {
        let j = id_index(prev, other);
        assert(0 <= j < prev.len() && prev[j].msg_id == other);
        assert(cur[j] == prev[j]);
        lemma_lookup_at(prev, j);
        lemma_lookup_at(cur, j);
    } else {
        if has_id(cur, other) {
            let j = id_index(cur, other);
            assert(0 <= j < cur.len() && cur[j].msg_id == other);
            assert(j != n);
            assert(cur[j] == prev[j]);
            assert(has_id(prev, other));
        }
    }
}

} // verus!
