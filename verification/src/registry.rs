//! The table that maps an opcode to its descriptor.

use crate::error::ExectError;
use crate::instruction::InstructionInfo;
use vstd::prelude::*;

verus! {

/// Whether some descriptor of `entries` claims `code`.
pub open spec fn has_code<F>(entries: Seq<InstructionInfo<F>>, code: u8) -> bool {
    exists|i: int| 0 <= i < entries.len() && (#[trigger] entries[i]).code == code
}

/// No two descriptors of `entries` claim the same opcode.
pub open spec fn distinct_codes<F>(entries: Seq<InstructionInfo<F>>) -> bool {
    forall|i: int, j: int|
        0 <= i < entries.len() && 0 <= j < entries.len() && (#[trigger] entries[i]).code == (
        #[trigger] entries[j]).code ==> i == j
}

/// The descriptors after `info` was offered to a registry that held
/// `entries`: with `info` at the end, or unchanged where its opcode was
/// taken.
pub open spec fn after_register<F>(
    entries: Seq<InstructionInfo<F>>,
    info: InstructionInfo<F>,
) -> Seq<InstructionInfo<F>> {
    if has_code(entries, info.code) {
        entries
    } else {
        entries.push(info)
    }
}

/// What offering `info` to a registry that held `entries` returns.
pub open spec fn register_result<F>(
    entries: Seq<InstructionInfo<F>>,
    info: InstructionInfo<F>,
) -> Result<(), ExectError> {
    if has_code(entries, info.code) {
        Err(ExectError::DuplicateRegistration(info.code))
    } else {
        Ok(())
    }
}

/// Of two descriptors that claim the same opcode, offered one after the
/// other, the second is rejected and changes nothing: the first is never
/// overwritten.
pub proof fn lemma_duplicate_rejected<F>(
    entries: Seq<InstructionInfo<F>>,
    first: InstructionInfo<F>,
    second: InstructionInfo<F>,
)
    requires
        first.code == second.code,
    ensures
        register_result(after_register(entries, first), second) == Err::<(), ExectError>(
            ExectError::DuplicateRegistration(second.code),
        ),
        after_register(after_register(entries, first), second) == after_register(entries, first),
{
    let held = after_register(entries, first);
    if has_code(entries, first.code) {
    } else {
        assert(held[entries.len() as int].code == first.code);
    }
    assert(has_code(held, second.code));
}

/// Registering keeps opcodes distinct.
pub proof fn lemma_register_keeps_distinct<F>(entries: Seq<InstructionInfo<F>>, info: InstructionInfo<F>)
    requires
        distinct_codes(entries),
    ensures
        distinct_codes(after_register(entries, info)),
{
    let held = after_register(entries, info);
    if !has_code(entries, info.code) {
        assert forall|i: int, j: int|
            0 <= i < held.len() && 0 <= j < held.len() && (#[trigger] held[i]).code == (
            #[trigger] held[j]).code implies i == j by {
            if i < entries.len() && j < entries.len() {
                assert(entries[i].code == entries[j].code);
            } else if i < entries.len() {
                assert(entries[i].code == info.code);
            } else if j < entries.len() {
                assert(entries[j].code == info.code);
            }
        }
    }
}

/// The descriptors that the references of `listed` point to.
pub open spec fn pointed<F>(listed: Seq<&InstructionInfo<F>>) -> Seq<InstructionInfo<F>> {
    Seq::new(listed.len(), |k: int| *listed[k])
}

/// The descriptors of a process, each under its own opcode.
///
/// A registry is filled once, before the first program runs, and only read
/// afterwards. Its view is the sequence of descriptors in registration order.
pub struct Registry<F> {
    entries: Vec<InstructionInfo<F>>,
    slots: Vec<Option<usize>>,
}

impl<F> View for Registry<F> {
    type V = Seq<InstructionInfo<F>>;

    closed spec fn view(&self) -> Seq<InstructionInfo<F>> {
        self.entries@
    }
}

impl<F> Registry<F> {
    /// The invariant of the table: slot `c` holds the position of the
    /// descriptor with opcode `c`, if there is one. Every registry that
    /// [`Registry::new`] and [`Registry::register`] produce satisfies it.
    pub closed spec fn wf(&self) -> bool {
        &&& self.slots@.len() == 256
        &&& forall|i: int|
            0 <= i < self.entries@.len() ==> (self.slots@[(#[trigger] self.entries@[i]).code as int]
                matches Some(k) && k == i)
        &&& forall|c: int|
            0 <= c < 256 ==> (#[trigger] self.slots@[c] matches Some(i) ==> i < self.entries@.len()
                && self.entries@[i as int].code == c)
    }

    /// An empty registry.
    pub fn new() -> (registry: Self)
        ensures
            registry.wf(),
            registry@ == Seq::<InstructionInfo<F>>::empty(),
    {
        let mut slots: Vec<Option<usize>> = Vec::new();
        let mut c: usize = 0;
        while c < 256
            invariant
                c <= 256,
                slots@.len() == c,
                forall|k: int| 0 <= k < c ==> slots@[k] is None,
            decreases 256 - c,
        {
            slots.push(None);
            c = c + 1;
        }
        Registry { entries: Vec::new(), slots }
    }

    /// In a well-formed registry no opcode is claimed twice.
    pub proof fn lemma_distinct_codes(&self)
        requires
            self.wf(),
        ensures
            distinct_codes(self@),
    {
        assert forall|i: int, j: int|
            0 <= i < self@.len() && 0 <= j < self@.len() && (#[trigger] self@[i]).code == (
            #[trigger] self@[j]).code implies i == j by {
            assert(self.slots@[self.entries@[i].code as int]->0 == i);
            assert(self.slots@[self.entries@[j].code as int]->0 == j);
        }
    }

    /// The number of registered descriptors.
    pub fn len(&self) -> (n: usize)
        ensures
            n == self@.len(),
    {
        self.entries.len()
    }

    /// Registers `info` under its opcode, unless that opcode is taken.
    ///
    /// A second descriptor for an opcode is rejected and the registry stays as
    /// it was: the first registration is never overwritten.
    pub fn register(&mut self, info: InstructionInfo<F>) -> (result: Result<(), ExectError>)
        requires
            old(self).wf(),
        ensures
            final(self).wf(),
            final(self)@ == after_register(old(self)@, info),
            result == register_result(old(self)@, info),
    {
        let code = info.code;
        let taken = self.slots[code as usize].is_some();
        if taken {
            assert(has_code(self@, code)) by {
                let i = self.slots@[code as int]->0 as int;
                assert(self.entries@[i].code == code);
            }
            Err(ExectError::DuplicateRegistration(code))
        } else {
            assert(!has_code(self@, code)) by {
                if has_code(self@, code) {
                    let i = choose|i: int|
                        0 <= i < self.entries@.len() && (#[trigger] self.entries@[i]).code == code;
                    assert(self.slots@[self.entries@[i].code as int] is Some);
                }
            }
            let position = self.entries.len();
            self.entries.push(info);
            self.slots.set(code as usize, Some(position));
            Ok(())
        }
    }

    /// The descriptor registered for `code`, if there is one.
    pub fn lookup(&self, code: u8) -> (found: Option<&InstructionInfo<F>>)
        requires
            self.wf(),
        ensures
            match found {
                Some(info) => exists|i: int|
                    0 <= i < self@.len() && (#[trigger] self@[i]).code == code && *info == self@[i],
                None => !has_code(self@, code),
            },
    {
        match self.slots[code as usize] {
            Some(i) => {
                let info = &self.entries[i];
                assert(self@[i as int].code == code);
                Some(info)
            },
            None => {
                assert(!has_code(self@, code)) by {
                    if has_code(self@, code) {
                        let i = choose|i: int|
                            0 <= i < self.entries@.len() && (#[trigger] self.entries@[i]).code
                                == code;
                        assert(self.slots@[self.entries@[i].code as int] is Some);
                    }
                }
                None
            },
        }
    }

    /// The descriptors in registration order.
    pub fn list(&self) -> (listed: Vec<&InstructionInfo<F>>)
        ensures
            listed@.len() == self@.len(),
            forall|i: int| 0 <= i < self@.len() ==> *(#[trigger] listed@[i]) == self@[i],
    {
        let mut listed: Vec<&InstructionInfo<F>> = Vec::new();
        let mut i: usize = 0;
        while i < self.entries.len()
            invariant
                i <= self.entries@.len(),
                listed@.len() == i,
                forall|k: int| 0 <= k < i ==> *(#[trigger] listed@[k]) == self.entries@[k],
            decreases self.entries@.len() - i,
        {
            listed.push(&self.entries[i]);
            i = i + 1;
        }
        listed
    }

    /// The descriptors by ascending opcode.
    pub fn list_by_opcode(&self) -> (listed: Vec<&InstructionInfo<F>>)
        requires
            self.wf(),
        ensures
            forall|a: int, b: int|
                0 <= a < b < listed@.len() ==> (#[trigger] listed@[a]).code < (
                #[trigger] listed@[b]).code,
            forall|k: int| 0 <= k < listed@.len() ==> self@.contains(*(#[trigger] listed@[k])),
            forall|i: int| 0 <= i < self@.len() ==> pointed(listed@).contains(#[trigger] self@[i]),
    {
        let mut listed: Vec<&InstructionInfo<F>> = Vec::new();
        let mut c: usize = 0;
        while c < 256
            invariant
                self.wf(),
                c <= 256,
                forall|k: int| 0 <= k < listed@.len() ==> (#[trigger] listed@[k]).code < c,
                forall|a: int, b: int|
                    0 <= a < b < listed@.len() ==> (#[trigger] listed@[a]).code < (
                    #[trigger] listed@[b]).code,
                forall|k: int|
                    0 <= k < listed@.len() ==> self.entries@.contains(*(#[trigger] listed@[k])),
                forall|i: int|
                    0 <= i < self.entries@.len() && (#[trigger] self.entries@[i]).code < c
                        ==> pointed(listed@).contains(self.entries@[i]),
            decreases 256 - c,
        {
            let ghost before = listed@;
            match self.slots[c] {
                Some(i) => {
                    let info = &self.entries[i];
                    listed.push(info);
                    assert forall|k: int| 0 <= k < listed@.len() implies self.entries@.contains(
                        *(#[trigger] listed@[k]),
                    ) by {
                        if k < before.len() {
                            assert(listed@[k] == before[k]);
                        } else {
                            assert(self.entries@[i as int] == *listed@[k]);
                        }
                    }
                    assert forall|j: int|
                        0 <= j < self.entries@.len() && (#[trigger] self.entries@[j]).code < c
                            + 1 implies pointed(listed@).contains(self.entries@[j]) by {
                        if self.entries@[j].code < c {
                            let k = choose|k: int|
                                0 <= k < pointed(before).len() && pointed(before)[k]
                                    == self.entries@[j];
                            assert(pointed(listed@)[k] == self.entries@[j]);
                        } else {
                            assert(self.slots@[self.entries@[j].code as int]->0 == j);
                            assert(pointed(listed@)[before.len() as int] == self.entries@[j]);
                        }
                    }
                },
                None => {
                    assert forall|j: int|
                        0 <= j < self.entries@.len() && (#[trigger] self.entries@[j]).code < c
                            + 1 implies pointed(listed@).contains(self.entries@[j]) by {
                        assert(self.slots@[self.entries@[j].code as int] is Some);
                    }
                },
            }
            c = c + 1;
        }
        listed
    }
}

/// The descriptor that `registry` holds for `code`, if there is one.
pub fn get_instruction<F>(registry: &Registry<F>, code: u8) -> (found: Option<&InstructionInfo<F>>)
    requires
        registry.wf(),
    ensures
        match found {
            Some(info) => exists|i: int|
                0 <= i < registry@.len() && (#[trigger] registry@[i]).code == code && *info
                    == registry@[i],
            None => !has_code(registry@, code),
        },
{
    registry.lookup(code)
}

} // verus!
