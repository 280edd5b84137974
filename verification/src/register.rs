//! The operator registry and the registration of the optimized kernels: each
//! optimized kernel is registered unless a fallback kernel of its name is
//! already there, then each portable kernel on the same terms, so the
//! optimized kernels win their names and registering again changes nothing.

use vstd::prelude::*;

use crate::tensor::Error;

verus! {

/// What a kernel is selected by: any argument types (a fallback kernel), or
/// one particular key.
#[derive(Clone, Copy, Debug, PartialEq, Eq, Structural)]
pub enum KernelKey {
    Fallback,
    Specific(u64),
}

/// A kernel: the operator name it implements, the id of its function, and
/// its key.
pub struct KernelEntry {
    pub name: Vec<u8>,
    pub op: u64,
    pub key: KernelKey,
}

/// A kernel seen as plain values: name, function id and key.
pub type EntryView = (Seq<u8>, u64, KernelKey);

impl KernelEntry {
    pub open spec fn view_entry(&self) -> EntryView {
        (self.name@, self.op, self.key)
    }

    /// A fallback kernel of the given name and function.
    pub fn new_fallback(name: Vec<u8>, op: u64) -> (r: KernelEntry)
        ensures
            r.view_entry() == (name@, op, KernelKey::Fallback),
    {
        KernelEntry { name, op, key: KernelKey::Fallback }
    }

    /// A copy of the kernel.
    pub fn duplicate(&self) -> (r: KernelEntry)
        ensures
            r.view_entry() == self.view_entry(),
    {
        let mut name: Vec<u8> = Vec::new();
        let mut i: usize = 0;
        while i < self.name.len()
            invariant
                i <= self.name@.len(),
                name@ == self.name@.take(i as int),
            decreases self.name@.len() - i,
        {
            name.push(self.name[i]);
            proof {
                assert(self.name@.take(i as int + 1) =~= self.name@.take(i as int).push(
                    self.name@[i as int],
                ));
            }
            i = i + 1;
        }
        proof {
            assert(self.name@.take(self.name@.len() as int) =~= self.name@);
        }
        KernelEntry { name, op: self.op, key: self.key }
    }
}

/// The kernels `ks` seen as plain values.
pub open spec fn entry_views(ks: Seq<KernelEntry>) -> Seq<EntryView> {
    ks.map_values(|k: KernelEntry| k.view_entry())
}

/// Whether the byte strings `a` and `b` are equal.
pub fn names_equal(a: &Vec<u8>, b: &Vec<u8>) -> (r: bool)
    ensures
        r == (a@ == b@),
{
    if a.len() != b.len() {
        return false;
    }
    let mut i: usize = 0;
    while i < a.len()
        invariant
            a@.len() == b@.len(),
            i <= a@.len(),
            forall|j: int| 0 <= j < i ==> a@[j] == b@[j],
        decreases a@.len() - i,
    {
        if a[i] != b[i] {
            return false;
        }
        i = i + 1;
    }
    proof {
        assert(a@ =~= b@);
    }
    true
}

/// A fallback kernel named `name` is among `es`.
pub open spec fn has_fallback(es: Seq<EntryView>, name: Seq<u8>) -> bool {
    exists|i: int| 0 <= i < es.len() && (#[trigger] es[i]).0 == name && es[i].2 == KernelKey::Fallback
}

/// A kernel of the given name and key is among `es`.
pub open spec fn has_kernel(es: Seq<EntryView>, name: Seq<u8>, key: KernelKey) -> bool {
    exists|i: int| 0 <= i < es.len() && (#[trigger] es[i]).0 == name && es[i].2 == key
}

/// The registered kernels after registering `k` into `es` when no fallback
/// kernel of its name is there, with a table of at most `max` kernels; and
/// the status.
pub open spec fn register_if_absent_spec(es: Seq<EntryView>, k: EntryView, max: nat) -> (
    Seq<EntryView>,
    Error,
) {
    if has_fallback(es, k.0) {
        (es, Error::Success)
    } else if es.len() + 1 > max {
        (es, Error::RegistrationExceedingMaxKernels)
    } else {
        (es.push(k), Error::Success)
    }
}

/// Registering the kernels `ks` one after the other, each unless a fallback
/// kernel of its name is there, stopping at the first failure.
pub open spec fn register_each_spec(es: Seq<EntryView>, ks: Seq<EntryView>, max: nat) -> (
    Seq<EntryView>,
    Error,
)
    decreases ks.len(),
{
    if ks.len() == 0 {
        (es, Error::Success)
    } else {
        let (e1, r1) = register_each_spec(es, ks.drop_last(), max);
        if r1 != Error::Success {
            (e1, r1)
        } else {
            register_if_absent_spec(e1, ks.last(), max)
        }
    }
}

/// No two kernels of `es` share both name and key.
pub open spec fn keys_unique(es: Seq<EntryView>) -> bool {
    forall|i: int, j: int|
        0 <= i < j < es.len() ==> !((#[trigger] es[i]).0 == (#[trigger] es[j]).0 && es[i].2 == es[j].2)
}

/// The registered kernels, in registration order, in a table of bounded
/// size.
pub struct KernelRegistry {
    kernels: Vec<KernelEntry>,
    max_kernels: usize,
}

impl KernelRegistry {
    /// The registered kernels, in registration order.
    pub closed spec fn entries(&self) -> Seq<EntryView> {
        entry_views(self.kernels@)
    }

    /// The most kernels the table holds.
    pub closed spec fn max(&self) -> nat {
        self.max_kernels as nat
    }

    /// No two registered kernels share both name and key.
    pub open spec fn wf(&self) -> bool {
        keys_unique(self.entries())
    }

    /// An empty registry holding at most `max_kernels` kernels.
    pub fn new(max_kernels: usize) -> (r: KernelRegistry)
        ensures
            r.entries() == Seq::<EntryView>::empty(),
            r.max() == max_kernels,
            r.wf(),
    {
        let r = KernelRegistry { kernels: Vec::new(), max_kernels };
        proof {
            assert(r.entries() =~= Seq::<EntryView>::empty());
        }
        r
    }

    /// The number of registered kernels.
    pub fn size(&self) -> (r: usize)
        ensures
            r == self.entries().len(),
    {
        self.kernels.len()
    }

    /// The name of kernel `i`.
    pub fn name_at(&self, i: usize) -> (r: &Vec<u8>)
        requires
            i < self.entries().len(),
        ensures
            r@ == self.entries()[i as int].0,
    {
        &self.kernels[i].name
    }

    /// The function id of kernel `i`.
    pub fn op_at(&self, i: usize) -> (r: u64)
        requires
            i < self.entries().len(),
        ensures
            r == self.entries()[i as int].1,
    {
        self.kernels[i].op
    }

    /// The key of kernel `i`.
    pub fn key_at(&self, i: usize) -> (r: KernelKey)
        requires
            i < self.entries().len(),
        ensures
            r == self.entries()[i as int].2,
    {
        self.kernels[i].key
    }

    /// Appends `kernels` to the registry.  Fails with
    /// `RegistrationExceedingMaxKernels`, registering nothing, when they do
    /// not all fit in the table.  A kernel whose name and key are already
    /// registered is refused by `requires`.
    pub fn register_kernels(&mut self, kernels: &[KernelEntry]) -> (r: Error)
        requires
            old(self).wf(),
            forall|j: int|
                0 <= j < kernels@.len() ==> !has_kernel(
                    old(self).entries(),
                    (#[trigger] kernels@[j]).name@,
                    kernels@[j].key,
                ),
            forall|j1: int, j2: int|
                0 <= j1 < j2 < kernels@.len() ==> !((#[trigger] kernels@[j1]).name@
                    == (#[trigger] kernels@[j2]).name@ && kernels@[j1].key == kernels@[j2].key),
        ensures
            final(self).max() == old(self).max(),
            final(self).wf(),
            old(self).entries().len() + kernels@.len() > old(self).max() ==> r
                == Error::RegistrationExceedingMaxKernels && final(self).entries()
                == old(self).entries(),
            old(self).entries().len() + kernels@.len() <= old(self).max() ==> r == Error::Success
                && final(self).entries() == old(self).entries() + entry_views(kernels@),
    {
        if kernels.len() > self.max_kernels || self.kernels.len() > self.max_kernels - kernels.len() {
            return Error::RegistrationExceedingMaxKernels;
        }
        let ghost e0 = self.entries();
        let mut j: usize = 0;
        while j < kernels.len()
            invariant
                j <= kernels@.len(),
                self.max() == old(self).max(),
                e0 == old(self).entries(),
                self.entries() == e0 + entry_views(kernels@.take(j as int)),
            decreases kernels@.len() - j,
        {
            let k = kernels[j].duplicate();
            let ghost before = self.kernels@;
            self.kernels.push(k);
            proof {
                assert(self.kernels@ == before.push(k));
                assert(entry_views(self.kernels@) =~= entry_views(before).push(
                    kernels@[j as int].view_entry(),
                ));
                assert(entry_views(kernels@.take(j as int + 1)) =~= entry_views(
                    kernels@.take(j as int),
                ).push(kernels@[j as int].view_entry()));
                assert(self.entries() =~= e0 + entry_views(kernels@.take(j as int + 1)));
            }
            j = j + 1;
        }
        proof {
            assert(kernels@.take(kernels@.len() as int) =~= kernels@);
            let f = self.entries();
            let ks = entry_views(kernels@);
            assert forall|i: int, j: int|
                0 <= i < j < f.len() implies !((#[trigger] f[i]).0 == (#[trigger] f[j]).0 && f[i].2
                == f[j].2) by {
                if j >= e0.len() {
                    assert(f[j] == kernels@[j - e0.len()].view_entry());
                    if i >= e0.len() {
                        assert(f[i] == kernels@[i - e0.len()].view_entry());
                    } else {
                        assert(f[i] == e0[i]);
                        if f[i].0 == f[j].0 && f[i].2 == f[j].2 {
                            assert(has_kernel(e0, kernels@[j - e0.len()].name@, kernels@[j
                                - e0.len()].key));
                        }
                    }
                } else {
                    assert(f[i] == e0[i] && f[j] == e0[j]);
                }
            }
        }
        Error::Success
    }

    /// Whether a fallback kernel named `name` is registered.
    pub fn has_fallback_kernel(&self, name: &Vec<u8>) -> (r: bool)
        ensures
            r == has_fallback(self.entries(), name@),
    {
        let mut i: usize = 0;
        while i < self.kernels.len()
            invariant
                i <= self.entries().len(),
                self.entries().len() == self.kernels@.len(),
                forall|j: int|
                    0 <= j < i ==> !((#[trigger] self.entries()[j]).0 == name@ && self.entries()[j].2
                        == KernelKey::Fallback),
            decreases self.entries().len() - i,
        {
            let registered = &self.kernels[i];
            proof {
                assert(self.entries()[i as int] == registered.view_entry());
            }
            if registered.key == KernelKey::Fallback && names_equal(&registered.name, name) {
                return true;
            }
            i = i + 1;
        }
        false
    }
}


/// Registers `kernel` unless a fallback kernel of its name is already
/// registered (see `register_if_absent_spec`).  A kernel that would repeat a
/// registered name and key is refused by `requires`.
pub fn register_if_absent(reg: &mut KernelRegistry, kernel: &KernelEntry) -> (r: Error)
    requires
        old(reg).wf(),
        !has_fallback(old(reg).entries(), kernel.name@) ==> !has_kernel(
            old(reg).entries(),
            kernel.name@,
            kernel.key,
        ),
    ensures
        final(reg).max() == old(reg).max(),
        final(reg).wf(),
        (final(reg).entries(), r) == register_if_absent_spec(
            old(reg).entries(),
            kernel.view_entry(),
            old(reg).max(),
        ),
{
    if reg.has_fallback_kernel(&kernel.name) {
        return Error::Success;
    }
    let batch: Vec<KernelEntry> = vec![kernel.duplicate()];
    proof {
        assert(entry_views(batch@) =~= seq![kernel.view_entry()]);
    }
    let r = reg.register_kernels(batch.as_slice());
    proof {
        if r == Error::Success {
            assert(reg.entries() =~= old(reg).entries().push(kernel.view_entry()));
        }
    }
    r
}

/// Every kernel of `ks` is a fallback kernel.
pub open spec fn all_fallback(ks: Seq<EntryView>) -> bool {
    forall|j: int| 0 <= j < ks.len() ==> (#[trigger] ks[j]).2 == KernelKey::Fallback
}

/// Once registering a prefix of `ks` fails, registering a longer prefix
/// fails the same way.
proof fn lemma_register_each_stops(es: Seq<EntryView>, ks: Seq<EntryView>, max: nat, p: int, q: int)
    requires
        0 <= p <= q <= ks.len(),
        register_each_spec(es, ks.take(p), max).1 != Error::Success,
    ensures
        register_each_spec(es, ks.take(q), max) == register_each_spec(es, ks.take(p), max),
    decreases q - p,
{
    if q > p {
        lemma_register_each_stops(es, ks, max, p, q - 1);
        assert(ks.take(q).drop_last() =~= ks.take(q - 1));
    }
}

/// Registers each kernel of `kernels` in turn unless a fallback kernel of
/// its name is already registered, stopping at the first failure (see
/// `register_each_spec`).
pub fn register_each(reg: &mut KernelRegistry, kernels: &Vec<KernelEntry>) -> (r: Error)
    requires
        old(reg).wf(),
        all_fallback(entry_views(kernels@)),
    ensures
        final(reg).max() == old(reg).max(),
        final(reg).wf(),
        (final(reg).entries(), r) == register_each_spec(
            old(reg).entries(),
            entry_views(kernels@),
            old(reg).max(),
        ),
{
    let ghost ks = entry_views(kernels@);
    let mut j: usize = 0;
    proof {
        assert(ks.take(0) =~= Seq::<EntryView>::empty());
    }
    while j < kernels.len()
        invariant
            j <= kernels@.len(),
            ks == entry_views(kernels@),
            all_fallback(ks),
            reg.max() == old(reg).max(),
            reg.wf(),
            (reg.entries(), Error::Success) == register_each_spec(
                old(reg).entries(),
                ks.take(j as int),
                old(reg).max(),
            ),
        decreases kernels@.len() - j,
    {
        proof {
            assert(ks.take(j as int + 1).drop_last() =~= ks.take(j as int));
            assert(ks.take(j as int + 1).last() == kernels@[j as int].view_entry());
            assert(kernels@[j as int].key == KernelKey::Fallback) by {
                assert(ks[j as int].2 == KernelKey::Fallback);
            }
        }
        let r = register_if_absent(reg, &kernels[j]);
        if r != Error::Success {
            proof {
                lemma_register_each_stops(
                    old(reg).entries(),
                    ks,
                    old(reg).max(),
                    j as int + 1,
                    ks.len() as int,
                );
                assert(ks.take(ks.len() as int) =~= ks);
            }
            return r;
        }
        j = j + 1;
    }
    proof {
        assert(ks.take(kernels@.len() as int) =~= ks);
    }
    Error::Success
}

/// The registered kernels and the status after registering the optimized
/// kernels, then the portable ones (see `register`).
pub open spec fn register_spec(
    es: Seq<EntryView>,
    optimized: Seq<EntryView>,
    portable: Seq<EntryView>,
    max: nat,
) -> (Seq<EntryView>, Error) {
    let (e1, r1) = register_each_spec(es, optimized, max);
    if r1 != Error::Success {
        (e1, r1)
    } else {
        register_each_spec(e1, portable, max)
    }
}


/// The operator names of the optimized kernels, in the order they are
/// registered.
pub open spec fn optimized_names() -> Seq<Seq<u8>> {
    seq![
        // aten::sum.IntList_out
        seq![97u8, 116u8, 101u8, 110u8, 58u8, 58u8, 115u8, 117u8, 109u8, 46u8, 73u8, 110u8, 116u8, 76u8, 105u8, 115u8, 116u8, 95u8, 111u8, 117u8, 116u8],
        // aten::native_layer_norm.out
        seq![97u8, 116u8, 101u8, 110u8, 58u8, 58u8, 110u8, 97u8, 116u8, 105u8, 118u8, 101u8, 95u8, 108u8, 97u8, 121u8, 101u8, 114u8, 95u8, 110u8, 111u8, 114u8, 109u8, 46u8, 111u8, 117u8, 116u8],
        // aten::_log_softmax.out
        seq![97u8, 116u8, 101u8, 110u8, 58u8, 58u8, 95u8, 108u8, 111u8, 103u8, 95u8, 115u8, 111u8, 102u8, 116u8, 109u8, 97u8, 120u8, 46u8, 111u8, 117u8, 116u8],
        // aten::elu.out
        seq![97u8, 116u8, 101u8, 110u8, 58u8, 58u8, 101u8, 108u8, 117u8, 46u8, 111u8, 117u8, 116u8],
        // aten::exp.out
        seq![97u8, 116u8, 101u8, 110u8, 58u8, 58u8, 101u8, 120u8, 112u8, 46u8, 111u8, 117u8, 116u8],
        // aten::gelu.out
        seq![97u8, 116u8, 101u8, 110u8, 58u8, 58u8, 103u8, 101u8, 108u8, 117u8, 46u8, 111u8, 117u8, 116u8],
        // aten::add.out
        seq![97u8, 116u8, 101u8, 110u8, 58u8, 58u8, 97u8, 100u8, 100u8, 46u8, 111u8, 117u8, 116u8],
        // aten::add.Scalar_out
        seq![97u8, 116u8, 101u8, 110u8, 58u8, 58u8, 97u8, 100u8, 100u8, 46u8, 83u8, 99u8, 97u8, 108u8, 97u8, 114u8, 95u8, 111u8, 117u8, 116u8],
        // aten::sub.out
        seq![97u8, 116u8, 101u8, 110u8, 58u8, 58u8, 115u8, 117u8, 98u8, 46u8, 111u8, 117u8, 116u8],
        // aten::sub.Scalar_out
        seq![97u8, 116u8, 101u8, 110u8, 58u8, 58u8, 115u8, 117u8, 98u8, 46u8, 83u8, 99u8, 97u8, 108u8, 97u8, 114u8, 95u8, 111u8, 117u8, 116u8],
        // aten::mul.out
        seq![97u8, 116u8, 101u8, 110u8, 58u8, 58u8, 109u8, 117u8, 108u8, 46u8, 111u8, 117u8, 116u8],
        // aten::mul.Scalar_out
        seq![97u8, 116u8, 101u8, 110u8, 58u8, 58u8, 109u8, 117u8, 108u8, 46u8, 83u8, 99u8, 97u8, 108u8, 97u8, 114u8, 95u8, 111u8, 117u8, 116u8],
        // aten::div.out
        seq![97u8, 116u8, 101u8, 110u8, 58u8, 58u8, 100u8, 105u8, 118u8, 46u8, 111u8, 117u8, 116u8],
        // aten::div.Scalar_out
        seq![97u8, 116u8, 101u8, 110u8, 58u8, 58u8, 100u8, 105u8, 118u8, 46u8, 83u8, 99u8, 97u8, 108u8, 97u8, 114u8, 95u8, 111u8, 117u8, 116u8],
        // aten::mm.out
        seq![97u8, 116u8, 101u8, 110u8, 58u8, 58u8, 109u8, 109u8, 46u8, 111u8, 117u8, 116u8],
        // aten::bmm.out
        seq![97u8, 116u8, 101u8, 110u8, 58u8, 58u8, 98u8, 109u8, 109u8, 46u8, 111u8, 117u8, 116u8],
        // aten::linear.out
        seq![97u8, 116u8, 101u8, 110u8, 58u8, 58u8, 108u8, 105u8, 110u8, 101u8, 97u8, 114u8, 46u8, 111u8, 117u8, 116u8],
        // aten::le.Tensor_out
        seq![97u8, 116u8, 101u8, 110u8, 58u8, 58u8, 108u8, 101u8, 46u8, 84u8, 101u8, 110u8, 115u8, 111u8, 114u8, 95u8, 111u8, 117u8, 116u8],
        // aten::le.Scalar_out
        seq![97u8, 116u8, 101u8, 110u8, 58u8, 58u8, 108u8, 101u8, 46u8, 83u8, 99u8, 97u8, 108u8, 97u8, 114u8, 95u8, 111u8, 117u8, 116u8],
        // aten::where.self_out
        seq![97u8, 116u8, 101u8, 110u8, 58u8, 58u8, 119u8, 104u8, 101u8, 114u8, 101u8, 46u8, 115u8, 101u8, 108u8, 102u8, 95u8, 111u8, 117u8, 116u8],
        // aten::grid_sampler_2d.out
        seq![97u8, 116u8, 101u8, 110u8, 58u8, 58u8, 103u8, 114u8, 105u8, 100u8, 95u8, 115u8, 97u8, 109u8, 112u8, 108u8, 101u8, 114u8, 95u8, 50u8, 100u8, 46u8, 111u8, 117u8, 116u8],
        // aten::_fft_r2c.out
        seq![97u8, 116u8, 101u8, 110u8, 58u8, 58u8, 95u8, 102u8, 102u8, 116u8, 95u8, 114u8, 50u8, 99u8, 46u8, 111u8, 117u8, 116u8],
        // aten::_fft_c2r.out
        seq![97u8, 116u8, 101u8, 110u8, 58u8, 58u8, 95u8, 102u8, 102u8, 116u8, 95u8, 99u8, 50u8, 114u8, 46u8, 111u8, 117u8, 116u8],
    ]
}

/// The optimized kernels: for each name of `optimized_names`, a fallback
/// kernel whose function id is its position in the list.
pub open spec fn optimized_table() -> Seq<EntryView> {
    Seq::new(optimized_names().len(), |i: int| (optimized_names()[i], i as u64, KernelKey::Fallback))
}

/// The length and the bytes at 8 and 11 of an operator name, which tell
/// the optimized names apart.
pub open spec fn name_signature(s: Seq<u8>) -> (int, u8, u8) {
    (s.len() as int, s[8], s[11])
}

/// The position in `optimized_names` of the name with signature `g`
/// (see `name_signature`), or -1.
pub open spec fn optimized_position(g: (int, u8, u8)) -> int {
    if g == (21int, 109u8, 110u8) {
        0
    } else     if g == (27int, 116u8, 101u8) {
        1
    } else     if g == (22int, 111u8, 115u8) {
        2
    } else     if g == (13int, 117u8, 117u8) {
        3
    } else     if g == (13int, 112u8, 117u8) {
        4
    } else     if g == (14int, 108u8, 111u8) {
        5
    } else     if g == (13int, 100u8, 117u8) {
        6
    } else     if g == (20int, 100u8, 99u8) {
        7
    } else     if g == (13int, 98u8, 117u8) {
        8
    } else     if g == (20int, 98u8, 99u8) {
        9
    } else     if g == (13int, 108u8, 117u8) {
        10
    } else     if g == (20int, 108u8, 99u8) {
        11
    } else     if g == (13int, 118u8, 117u8) {
        12
    } else     if g == (20int, 118u8, 99u8) {
        13
    } else     if g == (12int, 46u8, 116u8) {
        14
    } else     if g == (13int, 109u8, 117u8) {
        15
    } else     if g == (16int, 110u8, 114u8) {
        16
    } else     if g == (19int, 46u8, 110u8) {
        17
    } else     if g == (19int, 46u8, 97u8) {
        18
    } else     if g == (20int, 101u8, 46u8) {
        19
    } else     if g == (25int, 105u8, 115u8) {
        20
    } else     if g == (18int, 102u8, 114u8) {
        21
    } else     if g == (18int, 102u8, 99u8) {
        22
    } else {
        -1
    }
}

/// The optimized operator names are all different.
pub proof fn lemma_optimized_names_distinct()
    ensures
        optimized_names().len() == 23,
        forall|i: int, j: int|
            0 <= i < j < optimized_names().len() ==> #[trigger] optimized_names()[i]
                != #[trigger] optimized_names()[j],
{
    assert forall|i: int| 0 <= i < optimized_names().len() implies optimized_position(
        name_signature(#[trigger] optimized_names()[i]),
    ) == i by {
        assert(i == 0 || i == 1 || i == 2 || i == 3 || i == 4 || i == 5 || i == 6 || i == 7 || i == 8 || i == 9 || i == 10 || i == 11 || i == 12 || i == 13 || i == 14 || i == 15 || i == 16 || i == 17 || i == 18 || i == 19 || i == 20 || i == 21 || i == 22);
    }
}

/// The optimized kernels (see `optimized_table`).
pub fn optimized_kernels() -> (r: Vec<KernelEntry>)
    ensures
        entry_views(r@) == optimized_table(),
{
    let mut r: Vec<KernelEntry> = Vec::new();
    // aten::sum.IntList_out
    r.push(KernelEntry::new_fallback(vec![97u8, 116u8, 101u8, 110u8, 58u8, 58u8, 115u8, 117u8, 109u8, 46u8, 73u8, 110u8, 116u8, 76u8, 105u8, 115u8, 116u8, 95u8, 111u8, 117u8, 116u8], 0));
    // aten::native_layer_norm.out
    r.push(KernelEntry::new_fallback(vec![97u8, 116u8, 101u8, 110u8, 58u8, 58u8, 110u8, 97u8, 116u8, 105u8, 118u8, 101u8, 95u8, 108u8, 97u8, 121u8, 101u8, 114u8, 95u8, 110u8, 111u8, 114u8, 109u8, 46u8, 111u8, 117u8, 116u8], 1));
    // aten::_log_softmax.out
    r.push(KernelEntry::new_fallback(vec![97u8, 116u8, 101u8, 110u8, 58u8, 58u8, 95u8, 108u8, 111u8, 103u8, 95u8, 115u8, 111u8, 102u8, 116u8, 109u8, 97u8, 120u8, 46u8, 111u8, 117u8, 116u8], 2));
    // aten::elu.out
    r.push(KernelEntry::new_fallback(vec![97u8, 116u8, 101u8, 110u8, 58u8, 58u8, 101u8, 108u8, 117u8, 46u8, 111u8, 117u8, 116u8], 3));
    // aten::exp.out
    r.push(KernelEntry::new_fallback(vec![97u8, 116u8, 101u8, 110u8, 58u8, 58u8, 101u8, 120u8, 112u8, 46u8, 111u8, 117u8, 116u8], 4));
    // aten::gelu.out
    r.push(KernelEntry::new_fallback(vec![97u8, 116u8, 101u8, 110u8, 58u8, 58u8, 103u8, 101u8, 108u8, 117u8, 46u8, 111u8, 117u8, 116u8], 5));
    // aten::add.out
    r.push(KernelEntry::new_fallback(vec![97u8, 116u8, 101u8, 110u8, 58u8, 58u8, 97u8, 100u8, 100u8, 46u8, 111u8, 117u8, 116u8], 6));
    // aten::add.Scalar_out
    r.push(KernelEntry::new_fallback(vec![97u8, 116u8, 101u8, 110u8, 58u8, 58u8, 97u8, 100u8, 100u8, 46u8, 83u8, 99u8, 97u8, 108u8, 97u8, 114u8, 95u8, 111u8, 117u8, 116u8], 7));
    // aten::sub.out
    r.push(KernelEntry::new_fallback(vec![97u8, 116u8, 101u8, 110u8, 58u8, 58u8, 115u8, 117u8, 98u8, 46u8, 111u8, 117u8, 116u8], 8));
    // aten::sub.Scalar_out
    r.push(KernelEntry::new_fallback(vec![97u8, 116u8, 101u8, 110u8, 58u8, 58u8, 115u8, 117u8, 98u8, 46u8, 83u8, 99u8, 97u8, 108u8, 97u8, 114u8, 95u8, 111u8, 117u8, 116u8], 9));
    // aten::mul.out
    r.push(KernelEntry::new_fallback(vec![97u8, 116u8, 101u8, 110u8, 58u8, 58u8, 109u8, 117u8, 108u8, 46u8, 111u8, 117u8, 116u8], 10));
    // aten::mul.Scalar_out
    r.push(KernelEntry::new_fallback(vec![97u8, 116u8, 101u8, 110u8, 58u8, 58u8, 109u8, 117u8, 108u8, 46u8, 83u8, 99u8, 97u8, 108u8, 97u8, 114u8, 95u8, 111u8, 117u8, 116u8], 11));
    // aten::div.out
    r.push(KernelEntry::new_fallback(vec![97u8, 116u8, 101u8, 110u8, 58u8, 58u8, 100u8, 105u8, 118u8, 46u8, 111u8, 117u8, 116u8], 12));
    // aten::div.Scalar_out
    r.push(KernelEntry::new_fallback(vec![97u8, 116u8, 101u8, 110u8, 58u8, 58u8, 100u8, 105u8, 118u8, 46u8, 83u8, 99u8, 97u8, 108u8, 97u8, 114u8, 95u8, 111u8, 117u8, 116u8], 13));
    // aten::mm.out
    r.push(KernelEntry::new_fallback(vec![97u8, 116u8, 101u8, 110u8, 58u8, 58u8, 109u8, 109u8, 46u8, 111u8, 117u8, 116u8], 14));
    // aten::bmm.out
    r.push(KernelEntry::new_fallback(vec![97u8, 116u8, 101u8, 110u8, 58u8, 58u8, 98u8, 109u8, 109u8, 46u8, 111u8, 117u8, 116u8], 15));
    // aten::linear.out
    r.push(KernelEntry::new_fallback(vec![97u8, 116u8, 101u8, 110u8, 58u8, 58u8, 108u8, 105u8, 110u8, 101u8, 97u8, 114u8, 46u8, 111u8, 117u8, 116u8], 16));
    // aten::le.Tensor_out
    r.push(KernelEntry::new_fallback(vec![97u8, 116u8, 101u8, 110u8, 58u8, 58u8, 108u8, 101u8, 46u8, 84u8, 101u8, 110u8, 115u8, 111u8, 114u8, 95u8, 111u8, 117u8, 116u8], 17));
    // aten::le.Scalar_out
    r.push(KernelEntry::new_fallback(vec![97u8, 116u8, 101u8, 110u8, 58u8, 58u8, 108u8, 101u8, 46u8, 83u8, 99u8, 97u8, 108u8, 97u8, 114u8, 95u8, 111u8, 117u8, 116u8], 18));
    // aten::where.self_out
    r.push(KernelEntry::new_fallback(vec![97u8, 116u8, 101u8, 110u8, 58u8, 58u8, 119u8, 104u8, 101u8, 114u8, 101u8, 46u8, 115u8, 101u8, 108u8, 102u8, 95u8, 111u8, 117u8, 116u8], 19));
    // aten::grid_sampler_2d.out
    r.push(KernelEntry::new_fallback(vec![97u8, 116u8, 101u8, 110u8, 58u8, 58u8, 103u8, 114u8, 105u8, 100u8, 95u8, 115u8, 97u8, 109u8, 112u8, 108u8, 101u8, 114u8, 95u8, 50u8, 100u8, 46u8, 111u8, 117u8, 116u8], 20));
    // aten::_fft_r2c.out
    r.push(KernelEntry::new_fallback(vec![97u8, 116u8, 101u8, 110u8, 58u8, 58u8, 95u8, 102u8, 102u8, 116u8, 95u8, 114u8, 50u8, 99u8, 46u8, 111u8, 117u8, 116u8], 21));
    // aten::_fft_c2r.out
    r.push(KernelEntry::new_fallback(vec![97u8, 116u8, 101u8, 110u8, 58u8, 58u8, 95u8, 102u8, 102u8, 116u8, 95u8, 99u8, 50u8, 114u8, 46u8, 111u8, 117u8, 116u8], 22));
    proof {
        assert(entry_views(r@) =~= optimized_table());
    }
    r
}

/// Registers the optimized kernels of `optimized_kernels`, each unless a
/// fallback kernel of its name is already registered, then the portable
/// kernels on the same terms; the first failure is returned.
pub fn register(reg: &mut KernelRegistry, portable: &Vec<KernelEntry>) -> (r: Error)
    requires
        old(reg).wf(),
        all_fallback(entry_views(portable@)),
    ensures
        final(reg).max() == old(reg).max(),
        final(reg).wf(),
        (final(reg).entries(), r) == register_spec(
            old(reg).entries(),
            optimized_table(),
            entry_views(portable@),
            old(reg).max(),
        ),
{
    let optimized = optimized_kernels();
    let err = register_each(reg, &optimized);
    if err != Error::Success {
        return err;
    }
    register_each(reg, portable)
}

/// Registers all the optimized kernels of `optimized_kernels` at once (see
/// `KernelRegistry::register_kernels`): fails with
/// `RegistrationExceedingMaxKernels`, registering nothing, when they do not
/// all fit; otherwise appends them.  A fallback kernel already registered
/// under one of their names is refused by `requires`.
pub fn register_all(reg: &mut KernelRegistry) -> (r: Error)
    requires
        old(reg).wf(),
        forall|j: int|
            0 <= j < optimized_names().len() ==> !has_fallback(
                old(reg).entries(),
                #[trigger] optimized_names()[j],
            ),
    ensures
        final(reg).max() == old(reg).max(),
        final(reg).wf(),
        old(reg).entries().len() + optimized_names().len() > old(reg).max() ==> r
            == Error::RegistrationExceedingMaxKernels && final(reg).entries() == old(reg).entries(),
        old(reg).entries().len() + optimized_names().len() <= old(reg).max() ==> r == Error::Success
            && final(reg).entries() == old(reg).entries() + optimized_table(),
{
    let kernels = optimized_kernels();
    proof {
        lemma_optimized_names_distinct();
        let ks = kernels@;
        assert(entry_views(ks).len() == ks.len());
        assert forall|j: int| 0 <= j < ks.len() implies !has_kernel(
            old(reg).entries(),
            (#[trigger] ks[j]).name@,
            ks[j].key,
        ) by {
            assert(entry_views(ks)[j] == ks[j].view_entry());
            assert(entry_views(ks)[j] == optimized_table()[j]);
            assert(ks[j].name@ == optimized_names()[j] && ks[j].key == KernelKey::Fallback);
            if has_kernel(old(reg).entries(), ks[j].name@, ks[j].key) {
                let i = choose|i: int|
                    0 <= i < old(reg).entries().len() && (#[trigger] old(reg).entries()[i]).0
                        == ks[j].name@ && old(reg).entries()[i].2 == ks[j].key;
                assert(has_fallback(old(reg).entries(), optimized_names()[j]));
            }
        }
        assert forall|j1: int, j2: int| 0 <= j1 < j2 < ks.len() implies !((#[trigger] ks[j1]).name@
            == (#[trigger] ks[j2]).name@ && ks[j1].key == ks[j2].key) by {
            assert(entry_views(ks)[j1] == ks[j1].view_entry());
            assert(entry_views(ks)[j2] == ks[j2].view_entry());
            assert(entry_views(ks)[j1] == optimized_table()[j1]);
            assert(entry_views(ks)[j2] == optimized_table()[j2]);
            assert(optimized_names()[j1] != optimized_names()[j2]);
        }
    }
    reg.register_kernels(kernels.as_slice())
}

/// No two fallback kernels among `es` share a name.
pub open spec fn fallback_names_unique(es: Seq<EntryView>) -> bool {
    forall|i: int, j: int|
        0 <= i < j < es.len() && (#[trigger] es[i]).2 == KernelKey::Fallback && (#[trigger] es[j]).2
            == KernelKey::Fallback ==> es[i].0 != es[j].0
}

/// Registration keeps every kernel already registered, in place; what it
/// adds are kernels it was given; and it registers no fallback name twice.
pub proof fn lemma_register_each_keeps_and_adds(es: Seq<EntryView>, ks: Seq<EntryView>, max: nat)
    ensures
        ({
            let f = register_each_spec(es, ks, max).0;
            &&& es.len() <= f.len()
            &&& forall|i: int| 0 <= i < es.len() ==> #[trigger] f[i] == es[i]
            &&& forall|i: int| es.len() <= i < f.len() ==> ks.contains(#[trigger] f[i])
            &&& fallback_names_unique(es) ==> fallback_names_unique(f)
        }),
    decreases ks.len(),
{
    if ks.len() > 0 {
        let d = ks.drop_last();
        lemma_register_each_keeps_and_adds(es, d, max);
        let (e1, r1) = register_each_spec(es, d, max);
        assert forall|i: int| es.len() <= i < e1.len() implies ks.contains(#[trigger] e1[i]) by {
            let j = choose|j: int| 0 <= j < d.len() && d[j] == e1[i];
            assert(ks[j] == e1[i]);
        }
        if r1 == Error::Success {
            let k = ks.last();
            assert(ks[ks.len() - 1] == k);
        }
    }
}

/// After a successful registration of fallback kernels, a fallback kernel
/// of each of their names is registered.
proof fn lemma_register_each_names_present(es: Seq<EntryView>, ks: Seq<EntryView>, max: nat)
    requires
        all_fallback(ks),
        register_each_spec(es, ks, max).1 == Error::Success,
    ensures
        forall|j: int|
            0 <= j < ks.len() ==> has_fallback(register_each_spec(es, ks, max).0, (#[trigger] ks[j]).0),
    decreases ks.len(),
{
    if ks.len() > 0 {
        let d = ks.drop_last();
        let (e1, r1) = register_each_spec(es, d, max);
        lemma_register_each_names_present(es, d, max);
        lemma_register_each_keeps_and_adds(e1, seq![ks.last()], max);
        let f = register_each_spec(es, ks, max).0;
        assert(seq![ks.last()].drop_last() =~= Seq::<EntryView>::empty());
        assert forall|j: int| 0 <= j < ks.len() implies has_fallback(f, (#[trigger] ks[j]).0) by {
            if j < ks.len() - 1 {
                assert(d[j] == ks[j]);
                let i = choose|i: int| 0 <= i < e1.len() && (#[trigger] e1[i]).0 == d[j].0 && e1[i].2
                    == KernelKey::Fallback;
                assert(f[i] == e1[i]);
            } else {
                if !has_fallback(e1, ks.last().0) {
                    assert(f[e1.len() as int] == ks.last());
                }
            }
        }
    }
}

/// Registering kernels whose names all have a fallback kernel registered
/// changes nothing.
proof fn lemma_register_each_present_is_noop(es: Seq<EntryView>, ks: Seq<EntryView>, max: nat)
    requires
        forall|j: int| 0 <= j < ks.len() ==> has_fallback(es, (#[trigger] ks[j]).0),
    ensures
        register_each_spec(es, ks, max) == (es, Error::Success),
    decreases ks.len(),
{
    if ks.len() > 0 {
        let d = ks.drop_last();
        assert forall|j: int| 0 <= j < d.len() implies has_fallback(es, (#[trigger] d[j]).0) by {
            assert(d[j] == ks[j]);
        }
        lemma_register_each_present_is_noop(es, d, max);
        assert(has_fallback(es, ks[ks.len() - 1].0));
    }
}

/// Registering the same fallback kernels again, after a successful
/// registration, changes nothing.
pub proof fn lemma_register_each_idempotent(es: Seq<EntryView>, ks: Seq<EntryView>, max: nat)
    requires
        all_fallback(ks),
        register_each_spec(es, ks, max).1 == Error::Success,
    ensures
        register_each_spec(register_each_spec(es, ks, max).0, ks, max) == (
            register_each_spec(es, ks, max).0,
            Error::Success,
        ),
{
    lemma_register_each_names_present(es, ks, max);
    lemma_register_each_present_is_noop(register_each_spec(es, ks, max).0, ks, max);
}

/// After a successful registration, each fallback kernel that is the first
/// of its name among `ks`, and whose name had no fallback kernel registered
/// before, is registered with its function.
pub proof fn lemma_register_each_binds_new_names(
    es: Seq<EntryView>,
    ks: Seq<EntryView>,
    max: nat,
    j: int,
)
    requires
        0 <= j < ks.len(),
        all_fallback(ks),
        register_each_spec(es, ks, max).1 == Error::Success,
        !has_fallback(es, ks[j].0),
        forall|j2: int| 0 <= j2 < j ==> (#[trigger] ks[j2]).0 != ks[j].0,
    ensures
        register_each_spec(es, ks, max).0.contains(ks[j]),
    decreases ks.len(),
{
    let d = ks.drop_last();
    let (e1, r1) = register_each_spec(es, d, max);
    let f = register_each_spec(es, ks, max).0;
    lemma_register_each_keeps_and_adds(e1, seq![ks.last()], max);
    assert(seq![ks.last()].drop_last() =~= Seq::<EntryView>::empty());
    if j < ks.len() - 1 {
        assert forall|j2: int| 0 <= j2 < j implies (#[trigger] d[j2]).0 != d[j].0 by {
            assert(d[j2] == ks[j2]);
        }
        lemma_register_each_binds_new_names(es, d, max, j);
        let i = choose|i: int| 0 <= i < e1.len() && e1[i] == d[j];
        assert(f[i] == e1[i]);
    } else {
        lemma_register_each_keeps_and_adds(es, d, max);
        if has_fallback(e1, ks[j].0) {
            let i = choose|i: int| 0 <= i < e1.len() && (#[trigger] e1[i]).0 == ks[j].0 && e1[i].2
                == KernelKey::Fallback;
            if i < es.len() {
                assert(e1[i] == es[i]);
            } else {
                let j2 = choose|j2: int| 0 <= j2 < d.len() && d[j2] == e1[i];
                assert(ks[j2] == d[j2]);
            }
        }
        assert(f[e1.len() as int] == ks[j]);
    }
}

/// The optimized kernels win their names: after a successful registration
/// into a registry with no fallback name twice, each optimized kernel that
/// is the first of its name and whose name was not registered before is
/// registered with its function, and no fallback name is registered twice,
/// so no portable kernel of that name is.
pub proof fn lemma_register_optimized_wins(
    es: Seq<EntryView>,
    optimized: Seq<EntryView>,
    portable: Seq<EntryView>,
    max: nat,
    j: int,
)
    requires
        0 <= j < optimized.len(),
        all_fallback(optimized),
        register_spec(es, optimized, portable, max).1 == Error::Success,
        fallback_names_unique(es),
        !has_fallback(es, optimized[j].0),
        forall|j2: int| 0 <= j2 < j ==> (#[trigger] optimized[j2]).0 != optimized[j].0,
    ensures
        register_spec(es, optimized, portable, max).0.contains(optimized[j]),
        fallback_names_unique(register_spec(es, optimized, portable, max).0),
{
    let (e1, r1) = register_each_spec(es, optimized, max);
    lemma_register_each_binds_new_names(es, optimized, max, j);
    lemma_register_each_keeps_and_adds(es, optimized, max);
    lemma_register_each_keeps_and_adds(e1, portable, max);
    let f = register_spec(es, optimized, portable, max).0;
    let i = choose|i: int| 0 <= i < e1.len() && e1[i] == optimized[j];
    assert(f[i] == e1[i]);
}

/// Registering again after a successful registration changes nothing.
pub proof fn lemma_register_idempotent(
    es: Seq<EntryView>,
    optimized: Seq<EntryView>,
    portable: Seq<EntryView>,
    max: nat,
)
    requires
        all_fallback(optimized),
        all_fallback(portable),
        register_spec(es, optimized, portable, max).1 == Error::Success,
    ensures
        register_spec(register_spec(es, optimized, portable, max).0, optimized, portable, max) == (
            register_spec(es, optimized, portable, max).0,
            Error::Success,
        ),
{
    let (e1, r1) = register_each_spec(es, optimized, max);
    let f = register_spec(es, optimized, portable, max).0;
    lemma_register_each_names_present(es, optimized, max);
    lemma_register_each_keeps_and_adds(e1, portable, max);
    assert forall|j: int| 0 <= j < optimized.len() implies has_fallback(f, (#[trigger] optimized[j]).0) by {
        let i = choose|i: int| 0 <= i < e1.len() && (#[trigger] e1[i]).0 == optimized[j].0 && e1[i].2
            == KernelKey::Fallback;
        assert(f[i] == e1[i]);
    }
    lemma_register_each_present_is_noop(f, optimized, max);
    lemma_register_each_names_present(e1, portable, max);
    lemma_register_each_present_is_noop(f, portable, max);
}

/// The optimized kernels of `optimized_kernels` win their names: when a
/// registry (whose kernels never share name and key, see
/// `KernelRegistry::wf`) holds no fallback kernel under any optimized name,
/// a successful `register` leaves each optimized name bound to its optimized
/// kernel, and no fallback name registered twice, so no portable kernel
/// under an optimized name.
pub proof fn lemma_register_table_wins(es: Seq<EntryView>, portable: Seq<EntryView>, max: nat)
    requires
        keys_unique(es),
        register_spec(es, optimized_table(), portable, max).1 == Error::Success,
        forall|j: int|
            0 <= j < optimized_names().len() ==> !has_fallback(es, #[trigger] optimized_names()[j]),
    ensures
        forall|j: int|
            0 <= j < optimized_table().len() ==> register_spec(
                es,
                optimized_table(),
                portable,
                max,
            ).0.contains(#[trigger] optimized_table()[j]),
        fallback_names_unique(register_spec(es, optimized_table(), portable, max).0),
{
    lemma_optimized_names_distinct();
    let t = optimized_table();
    assert(all_fallback(t));
    assert(fallback_names_unique(es));
    assert forall|j: int| 0 <= j < t.len() implies register_spec(es, t, portable, max).0.contains(
        #[trigger] t[j],
    ) by {
        assert(!has_fallback(es, optimized_names()[j]));
        assert forall|j2: int| 0 <= j2 < j implies (#[trigger] t[j2]).0 != t[j].0 by {
            assert(optimized_names()[j2] != optimized_names()[j]);
        }
        lemma_register_optimized_wins(es, t, portable, max, j);
    }
    if t.len() > 0 {
        lemma_register_optimized_wins(es, t, portable, max, 0);
    }
}

/// Registering again after a successful `register` with the optimized
/// kernels of `optimized_kernels` changes nothing and succeeds.
pub proof fn lemma_register_table_idempotent(es: Seq<EntryView>, portable: Seq<EntryView>, max: nat)
    requires
        all_fallback(portable),
        register_spec(es, optimized_table(), portable, max).1 == Error::Success,
    ensures
        register_spec(register_spec(es, optimized_table(), portable, max).0, optimized_table(), portable, max)
            == (register_spec(es, optimized_table(), portable, max).0, Error::Success),
{
    assert(all_fallback(optimized_table()));
    lemma_register_idempotent(es, optimized_table(), portable, max);
}

} // verus!
