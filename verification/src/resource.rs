use vstd::prelude::*;

verus! {

/// An amount of each kind of resource a server offers and a task occupies.
#[derive(Debug, Clone, Copy, PartialEq, Eq, Structural)]
pub struct Resource {
    /// Upload bandwidth, in Gbps.
    pub network_upload_gbps: i32,
    /// Download bandwidth, in Gbps.
    pub network_download_gbps: i32,
    /// Video memory, in GB.
    pub vram_gbytes: i32,
}

/// The mathematical vector behind a `Resource`, in the order
/// (video memory, download, upload).
pub type Amounts = (int, int, int);

impl View for Resource {
    type V = Amounts;

    open spec fn view(&self) -> Amounts {
        (self.vram_gbytes as int, self.network_download_gbps as int, self.network_upload_gbps as int)
    }
}

pub open spec fn zero_amounts() -> Amounts {
    (0, 0, 0)
}

pub open spec fn amounts_add(a: Amounts, b: Amounts) -> Amounts {
    (a.0 + b.0, a.1 + b.1, a.2 + b.2)
}

pub open spec fn amounts_sub(a: Amounts, b: Amounts) -> Amounts {
    (a.0 - b.0, a.1 - b.1, a.2 - b.2)
}

/// `a + b * scalar`, component by component.
pub open spec fn amounts_add_scaled(a: Amounts, b: Amounts, scalar: int) -> Amounts {
    (a.0 + b.0 * scalar, a.1 + b.1 * scalar, a.2 + b.2 * scalar)
}

/// Every component is at least zero.
pub open spec fn amounts_nonneg(a: Amounts) -> bool {
    &&& 0 <= a.0
    &&& 0 <= a.1
    &&& 0 <= a.2
}

/// Component `k` (0: video memory, 1: download, 2: upload).
pub open spec fn component(a: Amounts, k: int) -> int {
    if k == 0 {
        a.0
    } else if k == 1 {
        a.1
    } else {
        a.2
    }
}

pub open spec fn abs(x: int) -> int {
    if x < 0 {
        -x
    } else {
        x
    }
}

pub open spec fn fits_i32(x: int) -> bool {
    i32::MIN <= x <= i32::MAX
}

/// Every component of `a` is representable as an `i32`.
pub open spec fn amounts_fit_i32(a: Amounts) -> bool {
    &&& fits_i32(a.0)
    &&& fits_i32(a.1)
    &&& fits_i32(a.2)
}

/// The component array of a resource: video memory, download, upload.
pub open spec fn vector_of(r: Resource) -> Seq<i32> {
    seq![r.vram_gbytes, r.network_download_gbps, r.network_upload_gbps]
}

/// The resource whose components are the first three entries of `v`.
pub open spec fn resource_of(v: Seq<i32>) -> Resource {
    Resource { vram_gbytes: v[0], network_download_gbps: v[1], network_upload_gbps: v[2] }
}

impl Resource {
    /// The all-zero resource.
    pub fn zero() -> (r: Resource)
        ensures
            r@ == zero_amounts(),
    {
        Resource { network_upload_gbps: 0, network_download_gbps: 0, vram_gbytes: 0 }
    }

    /// The components as an array: video memory, download, upload.
    pub fn as_vector(&self) -> (v: [i32; 3])
        ensures
            v@ == vector_of(*self),
    {
        [self.vram_gbytes, self.network_download_gbps, self.network_upload_gbps]
    }

    /// The resource whose components are `x`: video memory, download, upload.
    pub fn from_vector(x: &[i32; 3]) -> (r: Resource)
        ensures
            r == resource_of(x@),
    {
        Resource { network_upload_gbps: x[2], network_download_gbps: x[1], vram_gbytes: x[0] }
    }

    /// `self + rhs * scalar`, component by component.
    pub fn add_scaled(&self, rhs: &Resource, scalar: i32) -> (r: Resource)
        requires
            amounts_fit_i32((rhs@.0 * scalar, rhs@.1 * scalar, rhs@.2 * scalar)),
            amounts_fit_i32(amounts_add_scaled(self@, rhs@, scalar as int)),
        ensures
            r@ == amounts_add_scaled(self@, rhs@, scalar as int),
    {
        let a: [i32; 3] = self.as_vector();
        let b: [i32; 3] = rhs.as_vector();
        let out: [i32; 3] = [a[0] + b[0] * scalar, a[1] + b[1] * scalar, a[2] + b[2] * scalar];
        Self::from_vector(&out)
    }

    /// The component-wise sum.
    pub fn add(&self, rhs: &Resource) -> (r: Resource)
        requires
            amounts_fit_i32(amounts_add(self@, rhs@)),
        ensures
            r@ == amounts_add(self@, rhs@),
    {
        self.add_scaled(rhs, 1)
    }

    /// The component-wise difference.
    pub fn sub(&self, rhs: &Resource) -> (r: Resource)
        requires
            amounts_fit_i32((-rhs@.0, -rhs@.1, -rhs@.2)),
            amounts_fit_i32(amounts_sub(self@, rhs@)),
        ensures
            r@ == amounts_sub(self@, rhs@),
    {
        self.add_scaled(rhs, -1)
    }

    /// Whether every component is at least zero.
    pub fn is_nonnegative(&self) -> (b: bool)
        ensures
            b == amounts_nonneg(self@),
    {
        let v: [i32; 3] = self.as_vector();
        v[0] >= 0 && v[1] >= 0 && v[2] >= 0
    }
}

impl Default for Resource {
    fn default() -> (r: Resource)
        ensures
            r@ == zero_amounts(),
    {
        Resource::zero()
    }
}

/// Going to the component array and back gives the same resource.
pub proof fn lemma_vector_roundtrip(r: Resource)
    ensures
        resource_of(vector_of(r)) == r,
{
}

/// Going from a three-component array to a resource and back gives the same array.
pub proof fn lemma_resource_roundtrip(v: Seq<i32>)
    requires
        v.len() == 3,
    ensures
        vector_of(resource_of(v)) == v,
{
    assert(vector_of(resource_of(v)) =~= v);
}

/// Adding a resource and then subtracting it again gives back the starting amount.
pub proof fn lemma_add_sub_cancel(a: Amounts, b: Amounts)
    ensures
        amounts_sub(amounts_add(a, b), b) == a,
        amounts_add(amounts_sub(a, b), b) == a,
{
}

} // verus!
