use vstd::prelude::*;

verus! {

/// What a physical device is picked for.
pub enum PhysicalDeviceUse {
    General,
}

/// What a queue family is picked for.
pub enum QueueFamilyUse {
    General,
    Graphics,
    Compute,
    Transfer,
    SparseBinding,
    VideoDecode,
    VideoEncode,
}

/// Memory property flag sets, as raw `VkMemoryPropertyFlags` bits
/// (`DEVICE_LOCAL = 0x1`, `HOST_VISIBLE = 0x2`, `HOST_COHERENT = 0x4`, `HOST_CACHED = 0x8`).
pub struct MemProp;

impl MemProp {
    pub const GPU: u32 = 0x1;

    pub const CPU_GPU: u32 = 0x1 | 0x2 | 0x4;

    pub const CPU: u32 = 0x2 | 0x4;

    pub const CPU_CACHED: u32 = 0x2 | 0x4 | 0x8;
}

/// Queue capability bits, as raw `VkQueueFlags`.
pub const QUEUE_GRAPHICS: u32 = 0x1;

pub const QUEUE_COMPUTE: u32 = 0x2;

pub const QUEUE_TRANSFER: u32 = 0x4;

pub const QUEUE_SPARSE_BINDING: u32 = 0x8;

pub const QUEUE_VIDEO_DECODE: u32 = 0x20;

pub const QUEUE_VIDEO_ENCODE: u32 = 0x40;

/// The queue capabilities that use `u` needs.
pub open spec fn use_flags(u: QueueFamilyUse) -> u32 {
    match u {
        QueueFamilyUse::General => QUEUE_GRAPHICS | QUEUE_COMPUTE | QUEUE_TRANSFER,
        QueueFamilyUse::Graphics => QUEUE_GRAPHICS,
        QueueFamilyUse::Compute => QUEUE_COMPUTE,
        QueueFamilyUse::Transfer => QUEUE_TRANSFER,
        QueueFamilyUse::SparseBinding => QUEUE_SPARSE_BINDING,
        QueueFamilyUse::VideoDecode => QUEUE_VIDEO_DECODE,
        QueueFamilyUse::VideoEncode => QUEUE_VIDEO_ENCODE,
    }
}

/// The index of the best scored entry of `scores` among the first `k`, an entry without a
/// score left out; the last of equally scored ones.
pub open spec fn best_scored(scores: Seq<Option<u32>>, k: nat) -> Option<nat>
    decreases k,
{
    if k == 0 {
        None
    } else {
        let b = best_scored(scores, (k - 1) as nat);
        match scores[k - 1] {
            None => b,
            Some(s) => match b {
                Some(i) if scores[i as int].unwrap() > s => b,
                _ => Some((k - 1) as nat),
            },
        }
    }
}

proof fn lemma_best_scored(scores: Seq<Option<u32>>, k: nat)
    requires
        k <= scores.len(),
    ensures
        best_scored(scores, k) matches Some(i) ==> i < k && scores[i as int] is Some,
        best_scored(scores, k) matches Some(i) ==> forall|j: int|
            0 <= j < k && #[trigger] scores[j] is Some ==> scores[j].unwrap() <= scores[i as int].unwrap(),
        best_scored(scores, k) is None ==> forall|j: int| 0 <= j < k ==> #[trigger] scores[j] is None,
    decreases k,
{
    if k > 0 {
        lemma_best_scored(scores, (k - 1) as nat);
    }
}

/// The index of the best scored entry, as `best_scored` says: the last of the highest scores.
pub fn best_by_score(scores: &[Option<u32>]) -> (r: Option<usize>)
    ensures
        match best_scored(scores@, scores@.len()) {
            None => r is None,
            Some(i) => r == Some(i as usize),
        },
{
    let mut best: Option<usize> = None;
    let mut best_score: u32 = 0;
    let mut k: usize = 0;
    while k < scores.len()
        invariant
            k <= scores@.len(),
            match best_scored(scores@, k as nat) {
                None => best is None,
                Some(i) => best == Some(i as usize) && scores@[i as int] == Some(best_score),
            },
        decreases scores@.len() - k,
    {
        proof {
            lemma_best_scored(scores@, k as nat);
        }
        match scores[k] {
            None => {},
            Some(s) => {
                if best.is_none() || s >= best_score {
                    best = Some(k);
                    best_score = s;
                }
            },
        }
        k = k + 1;
    }
    best
}

/// The score of a queue family with capabilities `flags` and `count` queues for use `u`: its
/// queue count where it has every capability the use needs.
pub open spec fn family_score(flags: u32, count: u32, u: QueueFamilyUse) -> Option<u32> {
    if flags & use_flags(u) == use_flags(u) {
        Some(count)
    } else {
        None
    }
}

/// The scores of `families` for use `u`.
pub open spec fn family_scores(families: Seq<(u32, u32)>, u: QueueFamilyUse) -> Seq<Option<u32>> {
    Seq::new(families.len(), |i: int| family_score(families[i].0, families[i].1, u))
}

/// The queue family for use `u` among `families` (capabilities, queue count): of those with
/// every capability the use needs, the one with the most queues, the last of equals.
pub fn best_queue_family_for(families: &[(u32, u32)], u: QueueFamilyUse) -> (r: Option<u32>)
    requires
        families@.len() <= u32::MAX,
    ensures
        match best_scored(family_scores(families@, u), families@.len()) {
            None => r is None,
            Some(i) => r == Some(i as u32),
        },
{
    let need: u32 = match u {
        QueueFamilyUse::General => QUEUE_GRAPHICS | QUEUE_COMPUTE | QUEUE_TRANSFER,
        QueueFamilyUse::Graphics => QUEUE_GRAPHICS,
        QueueFamilyUse::Compute => QUEUE_COMPUTE,
        QueueFamilyUse::Transfer => QUEUE_TRANSFER,
        QueueFamilyUse::SparseBinding => QUEUE_SPARSE_BINDING,
        QueueFamilyUse::VideoDecode => QUEUE_VIDEO_DECODE,
        QueueFamilyUse::VideoEncode => QUEUE_VIDEO_ENCODE,
    };
    let mut scores: Vec<Option<u32>> = Vec::new();
    let mut i: usize = 0;
    while i < families.len()
        invariant
            i <= families@.len(),
            need == use_flags(u),
            scores@ == Seq::new(i as nat, |j: int| family_score(families@[j].0, families@[j].1, u)),
        decreases families@.len() - i,
    {
        let (flags, count) = families[i];
        scores.push(if flags & need == need { Some(count) } else { None });
        i = i + 1;
        assert(scores@ =~= Seq::new(i as nat, |j: int| family_score(families@[j].0, families@[j].1, u)));
    }
    assert(scores@ =~= family_scores(families@, u));
    proof {
        lemma_best_scored(scores@, scores@.len());
    }
    match best_by_score(scores.as_slice()) {
        None => None,
        Some(b) => Some(b as u32),
    }
}

/// What a physical device is scored by: whether it is a discrete GPU, and its limits.
#[derive(Debug, Clone, Copy, PartialEq, Eq, Structural)]
pub struct DeviceLimits {
    pub discrete: bool,
    pub max_image_dimension2_d: u32,
    pub max_uniform_buffer_range: u32,
    pub max_push_constants_size: u32,
    pub max_compute_shared_memory_size: u32,
    pub max_compute_work_group_invocations: u32,
}

/// The general-use score of a device: a million for a discrete GPU, plus its largest image
/// side, uniform buffer range / 64, push constant size / 4, compute shared memory / 16 and
/// compute work group invocations; `None` where that passes `u32::MAX`.
pub open spec fn device_score(l: DeviceLimits) -> Option<u32> {
    let s = (if l.discrete { 1_000_000int } else { 0 }) + l.max_image_dimension2_d
        + l.max_uniform_buffer_range / 64 + l.max_push_constants_size / 4
        + l.max_compute_shared_memory_size / 16 + l.max_compute_work_group_invocations;
    if s > u32::MAX {
        None
    } else {
        Some(s as u32)
    }
}

/// The general-use score of a device, as `device_score` says.
pub fn device_score_exec(l: &DeviceLimits) -> (r: Option<u32>)
    ensures
        r == device_score(*l),
{
    let s: u64 = (if l.discrete { 1_000_000u64 } else { 0 }) + l.max_image_dimension2_d as u64
        + l.max_uniform_buffer_range as u64 / 64 + l.max_push_constants_size as u64 / 4
        + l.max_compute_shared_memory_size as u64 / 16 + l.max_compute_work_group_invocations as u64;
    if s > u32::MAX as u64 {
        None
    } else {
        Some(s as u32)
    }
}

/// The device for general use among `devices`: the best scored, the last of equals.
pub fn best_physical_device_for(devices: &[DeviceLimits], u: PhysicalDeviceUse) -> (r: Option<usize>)
    ensures
        match best_scored(Seq::new(devices@.len(), |i: int| device_score(devices@[i])), devices@.len()) {
            None => r is None,
            Some(i) => r == Some(i as usize),
        },
{
    let mut scores: Vec<Option<u32>> = Vec::new();
    let mut i: usize = 0;
    while i < devices.len()
        invariant
            i <= devices@.len(),
            scores@ == Seq::new(i as nat, |j: int| device_score(devices@[j])),
        decreases devices@.len() - i,
    {
        scores.push(device_score_exec(&devices[i]));
        i = i + 1;
        assert(scores@ =~= Seq::new(i as nat, |j: int| device_score(devices@[j])));
    }
    best_by_score(scores.as_slice())
}

/// The sample count flag of `samples` samples, as a raw `VkSampleCountFlags`: the count itself
/// for 1, 2, 4, 8, 16, 32 or 64, else one sample.
pub fn samples_u32_to_vk(samples: u32) -> (r: u32)
    ensures
        r == if samples == 1 || samples == 2 || samples == 4 || samples == 8 || samples == 16
            || samples == 32 || samples == 64 {
            samples
        } else {
            1
        },
{
    match samples {
        1 | 2 | 4 | 8 | 16 | 32 | 64 => samples,
        _ => 1,
    }
}

/// The chosen entry has a score, and no entry scores higher.
pub proof fn lemma_best_is_best(scores: Seq<Option<u32>>)
    ensures
        best_scored(scores, scores.len()) matches Some(i) ==> i < scores.len() && scores[i as int] is Some
            && forall|j: int|
            0 <= j < scores.len() && #[trigger] scores[j] is Some ==> scores[j].unwrap() <= scores[i as int].unwrap(),
        best_scored(scores, scores.len()) is None ==> forall|j: int|
            0 <= j < scores.len() ==> #[trigger] scores[j] is None,
{
    lemma_best_scored(scores, scores.len());
}

/// The size in bytes of one texel of the core format with raw `VkFormat` code `format`, in the
/// registry's numbering: `R4G4_UNORM_PACK8` is 1, the 16-bit packed formats 2 to 8, the 8-bit
/// formats 9 to 57 (one to four channels, then `A8B8G8R8_*_PACK32`), the 10-bit packed formats
/// 58 to 69, the 16-bit formats 70 to 97, the 32-bit ones 98 to 109, the 64-bit ones 110 to 121,
/// `B10G11R11_UFLOAT_PACK32` and `E5B9G9R9_UFLOAT_PACK32` 122 and 123, and the depth and stencil
/// formats 124 to 130. Every other code, compressed formats among them, has size 0.
pub open spec fn format_size_spec(format: i32) -> u32 {
    if format == 1 {
        1
    } else if 2 <= format <= 8 {
        2
    } else if 9 <= format <= 15 {
        1
    } else if 16 <= format <= 22 {
        2
    } else if 23 <= format <= 36 {
        3
    } else if 37 <= format <= 69 {
        4
    } else if 70 <= format <= 76 {
        2
    } else if 77 <= format <= 83 {
        4
    } else if 84 <= format <= 90 {
        6
    } else if 91 <= format <= 97 {
        8
    } else if 98 <= format <= 100 {
        4
    } else if 101 <= format <= 103 {
        8
    } else if 104 <= format <= 106 {
        12
    } else if 107 <= format <= 109 {
        16
    } else if 110 <= format <= 112 {
        8
    } else if 113 <= format <= 115 {
        16
    } else if 116 <= format <= 118 {
        24
    } else if 119 <= format <= 121 {
        32
    } else if format == 122 || format == 123 {
        4
    } else if format == 124 {
        2
    } else if format == 125 || format == 126 {
        4
    } else if format == 127 {
        1
    } else if format == 128 {
        3
    } else if format == 129 {
        4
    } else if format == 130 {
        5
    } else {
        0
    }
}

/// The texel size in bytes of the format with raw `VkFormat` code `format`, as
/// `format_size_spec` says; 0 for a format it does not know.
pub fn format_size(format: i32) -> (r: u32)
    ensures
        r == format_size_spec(format),
{
    match format {
        1 => 1,
        2..=8 => 2,
        9..=15 => 1,
        16..=22 => 2,
        23..=36 => 3,
        37..=69 => 4,
        70..=76 => 2,
        77..=83 => 4,
        84..=90 => 6,
        91..=97 => 8,
        98..=100 => 4,
        101..=103 => 8,
        104..=106 => 12,
        107..=109 => 16,
        110..=112 => 8,
        113..=115 => 16,
        116..=118 => 24,
        119..=121 => 32,
        122 | 123 => 4,
        124 => 2,
        125 | 126 => 4,
        127 => 1,
        128 => 3,
        129 => 4,
        130 => 5,
        _ => 0,
    }
}

/// The byte strings of `v`.
pub open spec fn names_view(v: Seq<Vec<u8>>) -> Seq<Seq<u8>> {
    v.map_values(|n: Vec<u8>| n@)
}

/// The names of `names` that `available` holds, in their order.
pub open spec fn supported(names: Seq<Seq<u8>>, available: Seq<Seq<u8>>) -> Seq<Seq<u8>> {
    names.filter(|n: Seq<u8>| available.contains(n))
}

/// Whether `a` and `b` hold the same bytes.
fn same_bytes(a: &Vec<u8>, b: &Vec<u8>) -> (r: bool)
    ensures
        r == (a@ == b@),
{
    if a.len() != b.len() {
        return false;
    }
    let mut k: usize = 0;
    while k < a.len()
        invariant
            k <= a.len(),
            a.len() == b.len(),
            forall|q: int| 0 <= q < k ==> a@[q] == b@[q],
        decreases a.len() - k,
    {
        if a[k] != b[k] {
            return false;
        }
        k = k + 1;
    }
    assert(a@ =~= b@);
    true
}

/// Whether `available` holds the name `n`.
fn is_available(available: &Vec<Vec<u8>>, n: &Vec<u8>) -> (r: bool)
    ensures
        r == names_view(available@).contains(n@),
{
    let ghost all = names_view(available@);
    let mut i: usize = 0;
    while i < available.len()
        invariant
            i <= available.len(),
            all == names_view(available@),
            forall|k: int| 0 <= k < i ==> all[k] != n@,
        decreases available.len() - i,
    {
        if same_bytes(&available[i], n) {
            assert(all[i as int] == n@);
            return true;
        }
        i = i + 1;
    }
    false
}

/// A copy of the name `n`.
fn copy_name(n: &Vec<u8>) -> (r: Vec<u8>)
    ensures
        r@ == n@,
{
    let mut r: Vec<u8> = Vec::new();
    let mut k: usize = 0;
    while k < n.len()
        invariant
            k <= n.len(),
            r@ == n@.take(k as int),
        decreases n.len() - k,
    {
        r.push(n[k]);
        k = k + 1;
        assert(r@ =~= n@.take(k as int));
    }
    assert(n@.take(k as int) =~= n@);
    r
}

/// The names of `names` that `available` holds, in their order, as `supported` says.
pub fn supported_names(names: &Vec<Vec<u8>>, available: &Vec<Vec<u8>>) -> (r: Vec<Vec<u8>>)
    ensures
        names_view(r@) == supported(names_view(names@), names_view(available@)),
{
    let ghost all = names_view(names@);
    let ghost avail = names_view(available@);
    let ghost p = |n: Seq<u8>| avail.contains(n);
    let mut r: Vec<Vec<u8>> = Vec::new();
    let mut i: usize = 0;
    while i < names.len()
        invariant
            i <= names.len(),
            all == names_view(names@),
            avail == names_view(available@),
            p == (|n: Seq<u8>| avail.contains(n)),
            names_view(r@) == all.take(i as int).filter(p),
        decreases names.len() - i,
    {
        proof {
            assert(all.take(i + 1) == all.take(i as int).push(all[i as int]));
            all.take(i as int).lemma_filter_push(all[i as int], p);
        }
        let ghost before = names_view(r@);
        if is_available(available, &names[i]) {
            r.push(copy_name(&names[i]));
            assert(names_view(r@) =~= before.push(all[i as int]));
        }
        i = i + 1;
    }
    assert(all.take(i as int) =~= all);
    r
}

/// The instance extensions to enable: every one of `required`, then those of `preferred` that
/// `available` holds; or the index of the first of `required` that `available` lacks.
pub fn enabled_extensions(
    required: &Vec<Vec<u8>>,
    preferred: &Vec<Vec<u8>>,
    available: &Vec<Vec<u8>>,
) -> (r: Result<Vec<Vec<u8>>, usize>)
    ensures
        match r {
            Ok(v) => {
                &&& forall|k: int|
                    0 <= k < required@.len() ==> names_view(available@).contains(
                        #[trigger] names_view(required@)[k],
                    )
                &&& names_view(v@) == names_view(required@) + supported(
                    names_view(preferred@),
                    names_view(available@),
                )
            },
            Err(i) => {
                &&& i < required@.len()
                &&& !names_view(available@).contains(names_view(required@)[i as int])
                &&& forall|k: int|
                    0 <= k < i ==> names_view(available@).contains(
                        #[trigger] names_view(required@)[k],
                    )
            },
        },
{
    let ghost req = names_view(required@);
    let mut v: Vec<Vec<u8>> = Vec::new();
    let mut i: usize = 0;
    while i < required.len()
        invariant
            i <= required.len(),
            req == names_view(required@),
            names_view(v@) == req.take(i as int),
            forall|k: int| 0 <= k < i ==> names_view(available@).contains(#[trigger] req[k]),
        decreases required.len() - i,
    {
        if !is_available(available, &required[i]) {
            return Err(i);
        }
        let ghost before = names_view(v@);
        v.push(copy_name(&required[i]));
        assert(names_view(v@) =~= before.push(req[i as int]));
        i = i + 1;
        assert(req.take(i as int) =~= req.take(i - 1).push(req[i - 1]));
    }
    assert(req.take(i as int) =~= req);
    let extra = supported_names(preferred, available);
    let ghost head = names_view(v@);
    let mut k: usize = 0;
    while k < extra.len()
        invariant
            k <= extra.len(),
            names_view(v@) == head + names_view(extra@).take(k as int),
        decreases extra.len() - k,
    {
        let ghost before = names_view(v@);
        v.push(copy_name(&extra[k]));
        assert(names_view(v@) =~= before.push(names_view(extra@)[k as int]));
        k = k + 1;
        assert(names_view(extra@).take(k as int) =~= names_view(extra@).take(k - 1).push(
            names_view(extra@)[k - 1],
        ));
    }
    assert(names_view(extra@).take(k as int) =~= names_view(extra@));
    Ok(v)
}

/// `VkPresentModeKHR` `MAILBOX`.
pub const PRESENT_MODE_MAILBOX: i32 = 1;
/// `VkPresentModeKHR` `FIFO`.
pub const PRESENT_MODE_FIFO: i32 = 2;
/// `VkSurfaceTransformFlagBitsKHR` `IDENTITY`.
pub const SURFACE_TRANSFORM_IDENTITY: u32 = 0x1;

/// What a surface reports that a swapchain for it is chosen by: its current extent (a width of
/// `u32::MAX` where the swapchain decides), its supported and current pre-transforms as raw
/// `VkSurfaceTransformFlagsKHR`, and its least and most image counts (0 for no most).
#[derive(Clone, Copy, Debug, PartialEq, Eq, Structural)]
pub struct SurfaceCaps {
    pub current_width: u32,
    pub current_height: u32,
    pub supported_transforms: u32,
    pub current_transform: u32,
    pub min_image_count: u32,
    pub max_image_count: u32,
}

/// The settings of a recreated swapchain: its extent, pre-transform, present mode and image
/// count.
#[derive(Clone, Copy, Debug, PartialEq, Eq, Structural)]
pub struct SwapchainPlan {
    pub width: u32,
    pub height: u32,
    pub pre_transform: u32,
    pub present_mode: i32,
    pub image_count: u32,
}

/// The swapchain to recreate for a surface with capabilities `caps` and present modes `modes`,
/// whose swapchain is `size` now: the surface's current extent, or `size` where the surface
/// leaves the extent to the swapchain; none where that extent is empty or is `size` already. It
/// keeps the identity pre-transform where supported, else the current one; presents by MAILBOX
/// where offered, else FIFO; and asks for one image more than the least, but no more than the
/// most where there is one.
pub open spec fn swapchain_plan(caps: SurfaceCaps, size: (u32, u32), modes: Seq<i32>) -> Option<SwapchainPlan> {
    let extent = if caps.current_width == u32::MAX {
        size
    } else {
        (caps.current_width, caps.current_height)
    };
    if extent.0 == 0 || extent.1 == 0 || extent == size {
        None
    } else {
        let wanted = (caps.min_image_count + 1) as u32;
        Some(
            SwapchainPlan {
                width: extent.0,
                height: extent.1,
                pre_transform: if caps.supported_transforms & SURFACE_TRANSFORM_IDENTITY != 0 {
                    SURFACE_TRANSFORM_IDENTITY
                } else {
                    caps.current_transform
                },
                present_mode: if modes.contains(PRESENT_MODE_MAILBOX) {
                    PRESENT_MODE_MAILBOX
                } else {
                    PRESENT_MODE_FIFO
                },
                image_count: if caps.max_image_count > 0 && caps.max_image_count < wanted {
                    caps.max_image_count
                } else {
                    wanted
                },
            },
        )
    }
}

/// The swapchain to recreate, as `swapchain_plan` says.
pub fn plan_swapchain(caps: &SurfaceCaps, size: (u32, u32), modes: &[i32]) -> (r: Option<SwapchainPlan>)
    requires
        caps.min_image_count < u32::MAX,
    ensures
        r == swapchain_plan(*caps, size, modes@),
{
    let extent = if caps.current_width == u32::MAX {
        size
    } else {
        (caps.current_width, caps.current_height)
    };
    if extent.0 == 0 || extent.1 == 0 || (extent.0 == size.0 && extent.1 == size.1) {
        return None;
    }
    let pre_transform = if caps.supported_transforms & SURFACE_TRANSFORM_IDENTITY != 0 {
        SURFACE_TRANSFORM_IDENTITY
    } else {
        caps.current_transform
    };
    let mut mailbox = false;
    let mut i: usize = 0;
    while i < modes.len()
        invariant
            i <= modes.len(),
            mailbox == exists|k: int| 0 <= k < i && #[trigger] modes@[k] == PRESENT_MODE_MAILBOX,
        decreases modes.len() - i,
    {
        if modes[i] == PRESENT_MODE_MAILBOX {
            mailbox = true;
        }
        i = i + 1;
    }
    assert(mailbox == modes@.contains(PRESENT_MODE_MAILBOX));
    let present_mode = if mailbox { PRESENT_MODE_MAILBOX } else { PRESENT_MODE_FIFO };
    let mut image_count = caps.min_image_count + 1;
    if caps.max_image_count > 0 && caps.max_image_count < image_count {
        image_count = caps.max_image_count;
    }
    Some(SwapchainPlan { width: extent.0, height: extent.1, pre_transform, present_mode, image_count })
}

} // verus!
