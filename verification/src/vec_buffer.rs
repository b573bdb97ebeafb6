//! A contiguous region of memory that holds a fixed number of messages of
//! one size, for the sockets to fill and drain.

use vstd::prelude::*;

verus! {

/// The number of messages that a buffer made by `default` holds.
pub const DEFAULT_MESSAGE_COUNT: usize = 1024;

/// The largest transmission unit that a path is assumed to carry when
/// nothing else is configured: the value of `MaxMtu::default()` of
/// `s2n_quic_core::path`, converted by its `From<MaxMtu> for usize`. That
/// default is the constant 1500, which is all the contract claims.
#[verifier::external_body]
fn default_max_mtu() -> (mtu: usize)
    ensures
        mtu == 1500,
{
    usize::from(s2n_quic_core::path::MaxMtu::default())
}

/// A zeroed region of `message_count * mtu` bytes.
pub struct VecBuffer {
    region: Vec<u8>,
    mtu: usize,
}

impl View for VecBuffer {
    type V = Seq<u8>;

    /// The bytes of the region.
    closed spec fn view(&self) -> Seq<u8> {
        self.region@
    }
}

impl VecBuffer {
    /// The size of one message.
    pub closed spec fn spec_mtu(&self) -> usize {
        self.mtu
    }

    /// Create a contiguous buffer with the specified number of messages
    pub fn new(message_count: usize, mtu: usize) -> (b: Self)
        requires
            message_count * mtu <= usize::MAX,
        ensures
            b@.len() == message_count * mtu,
            forall|i: int| 0 <= i < b@.len() ==> b@[i] == 0u8,
            b.spec_mtu() == mtu,
    {
        let len: usize = message_count * mtu;
        let region: Vec<u8> = vec![0u8; len];
        VecBuffer { region, mtu }
    }

    /// The number of bytes in the region.
    pub fn len(&self) -> (n: usize)
        ensures
            n == self@.len(),
    {
        self.region.len()
    }

    /// The size of one message.
    pub fn mtu(&self) -> (m: usize)
        ensures
            m == self.spec_mtu(),
    {
        self.mtu
    }
}

impl std::ops::Deref for VecBuffer {
    type Target = [u8];

    /// The region, to read.
    fn deref(&self) -> (s: &[u8])
        ensures
            s@ == self@,
    {
        self.region.as_slice()
    }
}

impl std::ops::DerefMut for VecBuffer {
    /// The region, to write. Its length cannot change.
    fn deref_mut(&mut self) -> (s: &mut [u8])
        ensures
            s@ == old(self)@,
            final(self)@ == final(s)@,
            final(self).spec_mtu() == old(self).spec_mtu(),
    {
        self.region.as_mut_slice()
    }
}

impl Default for VecBuffer {
    /// A buffer of `DEFAULT_MESSAGE_COUNT` messages of the default maximum
    /// transmission unit.
    fn default() -> (b: Self)
        ensures
            b@.len() == 1024 * 1500,
            forall|i: int| 0 <= i < b@.len() ==> b@[i] == 0u8,
            b.spec_mtu() == 1500,
    {
        VecBuffer::new(DEFAULT_MESSAGE_COUNT, default_max_mtu())
    }
}

} // verus!
