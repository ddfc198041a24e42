//! Device records and the rules that build them from device-tree node
//! names.
//!
//! The token-stream walking of the device-tree blob belongs to the
//! surrounding boot environment; it hands each node's name and path here,
//! and only the record shape below travels further.

use vstd::prelude::*;
use vstd::string::StringSliceAdditionalSpecFns;
use vstd::utf8::encode_utf8;

verus! {

/// Types of devices that can be discovered.
#[derive(Clone, Copy, PartialEq, Eq, Structural, Debug)]
pub enum DeviceType {
    Uart,
    Block,
    Gpu,
    Network,
    Memory,
    Cpu,
    Interrupt,
    Timer,
    Unknown,
}

/// A memory region claimed by a device.
#[derive(Clone, Copy, PartialEq, Eq, Structural, Debug)]
pub struct MemoryRegion {
    pub base: usize,
    pub size: usize,
}

/// An interrupt assigned to a device.
#[derive(Clone, Copy, PartialEq, Eq, Structural, Debug)]
pub struct Interrupt {
    pub irq: usize,
    pub flags: u32,
}

/// A discovered device.
pub struct Device {
    pub name: String,
    pub compatible: Vec<String>,
    pub device_type: DeviceType,
    pub memory_regions: Vec<MemoryRegion>,
    pub interrupts: Vec<Interrupt>,
    pub initialized: bool,
}

impl Device {
    /// A fresh device record with the given name and type.
    pub fn new(name: &str, device_type: DeviceType) -> (r: Device)
        ensures
            r.name@ == name@,
            r.compatible@.len() == 0,
            r.device_type == device_type,
            r.memory_regions@.len() == 0,
            r.interrupts@.len() == 0,
            !r.initialized,
    {
        Device {
            name: name.to_owned(),
            compatible: Vec::new(),
            device_type,
            memory_regions: Vec::new(),
            interrupts: Vec::new(),
            initialized: false,
        }
    }

    /// Records one more compatible-driver string.
    pub fn add_compatible(&mut self, compatible: &str)
        ensures
            final(self).compatible@.len() == old(self).compatible@.len() + 1,
            final(self).compatible@.last()@ == compatible@,
            *final(self) == (Device {
                compatible: final(self).compatible,
                ..*old(self)
            }),
    {
        self.compatible.push(compatible.to_owned());
    }

    /// Records one more memory region.
    pub fn add_memory_region(&mut self, base: usize, size: usize)
        ensures
            final(self).memory_regions@ == old(self).memory_regions@.push(
                MemoryRegion { base, size },
            ),
            *final(self) == (Device {
                memory_regions: final(self).memory_regions,
                ..*old(self)
            }),
    {
        self.memory_regions.push(MemoryRegion { base, size });
    }

    /// Records one more interrupt line.
    pub fn add_interrupt(&mut self, irq: usize, flags: u32)
        ensures
            final(self).interrupts@ == old(self).interrupts@.push(Interrupt { irq, flags }),
            *final(self) == (Device {
                interrupts: final(self).interrupts,
                ..*old(self)
            }),
    {
        self.interrupts.push(Interrupt { irq, flags });
    }
}

/// Manages all devices in the system.
pub struct DeviceManager {
    pub devices: Vec<Device>,
}

/// One device-tree node as the boot environment hands it over: its name and
/// its full path.
pub struct DtbNode {
    pub name: String,
    pub path: String,
}

impl DeviceManager {
    /// An empty device manager.
    pub fn new() -> (r: DeviceManager)
        ensures
            r.devices@.len() == 0,
    {
        DeviceManager { devices: Vec::new() }
    }

    /// Registers one discovered device.
    pub fn add_device(&mut self, device: Device)
        ensures
            final(self).devices@ == old(self).devices@.push(device),
    {
        self.devices.push(device);
    }

    /// Walks the node list the device-tree collaborator produced and
    /// creates a device record for every recognized node: earlier devices
    /// are untouched, and what is appended is exactly one matching record
    /// per recognized node, in node order.
    pub fn discover_devices(&mut self, nodes: &Vec<DtbNode>)
        ensures
            final(self).devices@.len() >= old(self).devices@.len(),
            forall|k: int|
                0 <= k < old(self).devices@.len() ==> final(self).devices@[k] == old(
                    self,
                ).devices@[k],
            devices_for_nodes(
                nodes@,
                final(self).devices@.skip(old(self).devices@.len() as int),
            ),
    {
        let ghost base = old(self).devices@.len() as int;
        let n = nodes.len();
        let mut i: usize = 0;
        proof {
            assert(nodes@.subrange(0, 0) =~= Seq::<DtbNode>::empty());
            assert(self.devices@.skip(base) =~= Seq::<Device>::empty());
        }
        while i < n
            invariant
                n == nodes@.len(),
                i <= n,
                base == old(self).devices@.len(),
                self.devices@.len() >= old(self).devices@.len(),
                forall|k: int|
                    0 <= k < base ==> self.devices@[k] == old(self).devices@[k],
                devices_for_nodes(nodes@.subrange(0, i as int), self.devices@.skip(base)),
            decreases n - i,
        {
            let ghost devs_pre = self.devices@;
            let ghost node = nodes@[i as int];
            let name = nodes[i].name.as_str();
            let path = nodes[i].path.as_str();
            proof {
                assert(name.spec_bytes() == node_name_bytes(node));
                assert(path.spec_bytes() == node_path_bytes(node));
            }
            maybe_create_device(name, path, self);
            proof {
                assert(nodes@.subrange(0, i + 1) =~= nodes@.subrange(0, i as int).push(node));
                match device_type_for(node_name_bytes(node)) {
                    Option::None => {
                        assert(self.devices@ == devs_pre);
                        lemma_devices_for_nodes_snoc(
                            nodes@.subrange(0, i as int),
                            devs_pre.skip(base),
                            node,
                            devs_pre.last(),
                        );
                    },
                    Option::Some(_t) => {
                        let d = self.devices@.last();
                        assert(device_matches_node(d, node)) by {
                            assert(d.name@ == path@ && path@ == node.path@);
                        }
                        assert(self.devices@.skip(base) =~= devs_pre.skip(base).push(d));
                        lemma_devices_for_nodes_snoc(
                            nodes@.subrange(0, i as int),
                            devs_pre.skip(base),
                            node,
                            d,
                        );
                    },
                }
            }
            i = i + 1;
        }
        proof {
            assert(nodes@.subrange(0, n as int) =~= nodes@);
        }
    }

    /// The number of devices found.
    pub fn num_devices(&self) -> (r: usize)
        ensures
            r == self.devices@.len(),
    {
        self.devices.len()
    }
}

/// `p` is a prefix of `b`.
pub open spec fn starts_with_bytes(b: Seq<u8>, p: Seq<u8>) -> bool {
    p.len() <= b.len() && b.subrange(0, p.len() as int) == p
}

/// Whether `s` starts with `prefix`, byte for byte.
pub fn str_starts_with(s: &str, prefix: &str) -> (r: bool)
    ensures
        r == starts_with_bytes(s.spec_bytes(), prefix.spec_bytes()),
{
    let sb = s.as_bytes();
    let pb = prefix.as_bytes();
    if pb.len() > sb.len() {
        return false;
    }
    let n = pb.len();
    let mut i: usize = 0;
    while i < n
        invariant
            n == pb@.len(),
            n <= sb@.len(),
            i <= n,
            sb@ == s.spec_bytes(),
            pb@ == prefix.spec_bytes(),
            forall|k: int| 0 <= k < i ==> sb@[k] == pb@[k],
        decreases n - i,
    {
        if sb[i] != pb[i] {
            proof {
                assert(s.spec_bytes().subrange(0, n as int)[i as int] != prefix.spec_bytes()[i as int]);
            }
            return false;
        }
        i = i + 1;
    }
    proof {
        assert(s.spec_bytes().subrange(0, n as int) =~= prefix.spec_bytes());
    }
    true
}

/// Whether `s` and `t` hold the same bytes.
pub fn str_eq_bytes(s: &str, t: &str) -> (r: bool)
    ensures
        r == (s.spec_bytes() == t.spec_bytes()),
{
    let sb = s.as_bytes();
    let tb = t.as_bytes();
    if sb.len() != tb.len() {
        proof {
            assert(s.spec_bytes().len() != t.spec_bytes().len());
        }
        return false;
    }
    let n = sb.len();
    let mut i: usize = 0;
    while i < n
        invariant
            n == sb@.len() == tb@.len(),
            i <= n,
            sb@ == s.spec_bytes(),
            tb@ == t.spec_bytes(),
            forall|k: int| 0 <= k < i ==> sb@[k] == tb@[k],
        decreases n - i,
    {
        if sb[i] != tb[i] {
            return false;
        }
        i = i + 1;
    }
    proof {
        assert(s.spec_bytes() =~= t.spec_bytes());
    }
    true
}

/// The device type a node name announces, if any.
pub open spec fn device_type_for(b: Seq<u8>) -> Option<DeviceType> {
    if starts_with_bytes(b, "uart".spec_bytes()) {
        Some(DeviceType::Uart)
    } else if starts_with_bytes(b, "virtio".spec_bytes()) {
        Some(DeviceType::Block)
    } else if b == "plic".spec_bytes() {
        Some(DeviceType::Interrupt)
    } else if b == "clint".spec_bytes() {
        Some(DeviceType::Timer)
    } else if starts_with_bytes(b, "cpu".spec_bytes()) {
        Some(DeviceType::Cpu)
    } else if b == "memory".spec_bytes() {
        Some(DeviceType::Memory)
    } else {
        None
    }
}

/// The bytes of a node's name, the input to the classification rules.
pub open spec fn node_name_bytes(n: DtbNode) -> Seq<u8> {
    encode_utf8(n.name@)
}

/// The bytes of a node's path.
pub open spec fn node_path_bytes(n: DtbNode) -> Seq<u8> {
    encode_utf8(n.path@)
}

/// The record `maybe_create_device` builds for a recognized node: named by
/// the path, typed by the name, regions and interrupt lines the platform's
/// fixed assignments (a block device's base from the path's `@address`).
pub open spec fn device_matches_node(d: Device, n: DtbNode) -> bool {
    match device_type_for(node_name_bytes(n)) {
        Option::None => false,
        Option::Some(t) => {
            &&& d.name@ == n.path@
            &&& d.device_type == t
            &&& (t == DeviceType::Uart ==> d.memory_regions@ =~= seq![
                MemoryRegion { base: 0x10000000, size: 0x100 },
            ] && d.interrupts@ =~= seq![Interrupt { irq: 10, flags: 0 }])
            &&& (t == DeviceType::Block ==> d.memory_regions@ =~= seq![
                MemoryRegion { base: block_base(node_path_bytes(n)) as usize, size: 0x1000 },
            ] && d.interrupts@ =~= seq![Interrupt { irq: 1, flags: 0 }])
            &&& (t == DeviceType::Interrupt ==> d.memory_regions@ =~= seq![
                MemoryRegion { base: 0x0c000000, size: 0x4000000 },
            ] && d.interrupts@.len() == 0)
            &&& (t == DeviceType::Timer ==> d.memory_regions@ =~= seq![
                MemoryRegion { base: 0x02000000, size: 0x10000 },
            ] && d.interrupts@.len() == 0)
            &&& (t == DeviceType::Cpu || t == DeviceType::Memory ==> d.memory_regions@.len() == 0
                && d.interrupts@.len() == 0)
        },
    }
}

/// The records discovery appends for a node list, in order: one matching
/// record per recognized node, none for the rest.
pub open spec fn devices_for_nodes(nodes: Seq<DtbNode>, devs: Seq<Device>) -> bool
    decreases nodes.len(),
{
    if nodes.len() == 0 {
        devs.len() == 0
    } else if device_type_for(node_name_bytes(nodes[0])) is Some {
        devs.len() > 0 && device_matches_node(devs[0], nodes[0]) && devices_for_nodes(
            nodes.drop_first(),
            devs.drop_first(),
        )
    } else {
        devices_for_nodes(nodes.drop_first(), devs)
    }
}

/// Walking one more node extends the discovered records by one matching
/// record when the node is recognized, by nothing otherwise.
proof fn lemma_devices_for_nodes_snoc(
    nodes: Seq<DtbNode>,
    devs: Seq<Device>,
    n: DtbNode,
    d: Device,
)
    requires
        devices_for_nodes(nodes, devs),
    ensures
        device_type_for(node_name_bytes(n)) is Some && device_matches_node(d, n)
            ==> devices_for_nodes(nodes.push(n), devs.push(d)),
        device_type_for(node_name_bytes(n)) is None ==> devices_for_nodes(nodes.push(n), devs),
    decreases nodes.len(),
{
    if nodes.len() == 0 {
        assert(nodes.push(n)[0] == n);
        assert(nodes.push(n).drop_first() =~= nodes);
        if device_type_for(node_name_bytes(n)) is Some && device_matches_node(d, n) {
            assert(devs.push(d)[0] == d);
            assert(devs.push(d).drop_first() =~= devs);
        }
    } else {
        assert(nodes.push(n)[0] == nodes[0]);
        assert(nodes.push(n).drop_first() =~= nodes.drop_first().push(n));
        if device_type_for(node_name_bytes(nodes[0])) is Some {
            assert(devs.push(d)[0] == devs[0]);
            assert(devs.push(d).drop_first() =~= devs.drop_first().push(d));
            lemma_devices_for_nodes_snoc(nodes.drop_first(), devs.drop_first(), n, d);
        } else {
            lemma_devices_for_nodes_snoc(nodes.drop_first(), devs, n, d);
        }
    }
}

/// Position of the last `@` in `b`, or -1.
pub open spec fn last_at_idx(b: Seq<u8>) -> int
    decreases b.len(),
{
    if b.len() == 0 {
        -1
    } else if b.last() == 64 {
        b.len() - 1
    } else {
        last_at_idx(b.drop_last())
    }
}

/// A hexadecimal digit.
pub open spec fn is_hex_digit(c: u8) -> bool {
    (48 <= c <= 57) || (97 <= c <= 102) || (65 <= c <= 70)
}

/// The value of a hexadecimal digit.
pub open spec fn hex_digit_val(c: u8) -> int {
    if 48 <= c <= 57 {
        c - 48
    } else if 97 <= c <= 102 {
        c - 87
    } else {
        c - 55
    }
}

/// All bytes are hexadecimal digits.
pub open spec fn all_hex(b: Seq<u8>) -> bool {
    forall|i: int| 0 <= i < b.len() ==> is_hex_digit(#[trigger] b[i])
}

/// The number a big-endian hexadecimal digit string denotes.
pub open spec fn hex_val(b: Seq<u8>) -> int
    decreases b.len(),
{
    if b.len() == 0 {
        0
    } else {
        hex_val(b.drop_last()) * 16 + hex_digit_val(b.last())
    }
}

pub proof fn lemma_hex_val_nonneg(b: Seq<u8>)
    requires
        all_hex(b),
    ensures
        hex_val(b) >= 0,
    decreases b.len(),
{
    if b.len() > 0 {
        assert forall|i: int| 0 <= i < b.drop_last().len() implies is_hex_digit(
            #[trigger] b.drop_last()[i],
        ) by {
            assert(b.drop_last()[i] == b[i]);
        }
        lemma_hex_val_nonneg(b.drop_last());
    }
}

/// The memory-region base a block device's path determines: the hexadecimal
/// address after the last `@`, or the default when there is none or it does
/// not parse.
pub open spec fn block_base(p: Seq<u8>) -> int {
    let i = last_at_idx(p);
    if i >= 0 {
        let suffix = p.subrange(i + 1, p.len() as int);
        if suffix.len() > 0 && all_hex(suffix) && hex_val(suffix) <= usize::MAX {
            hex_val(suffix)
        } else {
            0x10001000
        }
    } else {
        0x10001000
    }
}

/// From any prefix on, appending hexadecimal digits never shrinks the
/// value; if a prefix already exceeds a bound, the whole string does.
pub proof fn lemma_hex_grows(b: Seq<u8>, i: int)
    requires
        0 <= i <= b.len(),
        all_hex(b),
    ensures
        hex_val(b) >= hex_val(b.subrange(0, i)),
    decreases b.len() - i,
{
    lemma_hex_val_nonneg(b);
    if i < b.len() {
        lemma_hex_grows(b, i + 1);
        let p1 = b.subrange(0, i + 1);
        let p0 = b.subrange(0, i);
        assert(p1.drop_last() =~= p0);
        assert(p1.last() == b[i]);
        assert forall|k: int| 0 <= k < p0.len() implies is_hex_digit(#[trigger] p0[k]) by {
            assert(p0[k] == b[k]);
        }
        lemma_hex_val_nonneg(p0);
        assert(hex_val(p1) == hex_val(p0) * 16 + hex_digit_val(b[i]));
        assert(hex_val(p0) * 16 >= hex_val(p0)) by (nonlinear_arith)
            requires
                hex_val(p0) >= 0,
        ;
        assert(hex_digit_val(b[i]) >= 0);
    } else {
        assert(b.subrange(0, i) =~= b);
    }
}

/// Creates a device record from a device-tree node if its name announces a
/// recognized device: the type comes from the name's prefix, the regions
/// and interrupt lines are the platform's fixed assignments, and a block
/// device's region base is taken from the `@address` suffix of its path
/// when one parses as hexadecimal.
pub fn maybe_create_device(name: &str, path: &str, device_manager: &mut DeviceManager)
    ensures
        match device_type_for(name.spec_bytes()) {
            Option::None => *final(device_manager) == *old(device_manager),
            Option::Some(t) => {
                &&& final(device_manager).devices@.len() == old(device_manager).devices@.len() + 1
                &&& forall|k: int|
                    0 <= k < old(device_manager).devices@.len()
                        ==> final(device_manager).devices@[k] == old(device_manager).devices@[k]
                &&& ({
                    let d = final(device_manager).devices@.last();
                    &&& d.name@ == path@
                    &&& d.device_type == t
                    &&& (t == DeviceType::Uart ==> d.memory_regions@ =~= seq![
                        MemoryRegion { base: 0x10000000, size: 0x100 },
                    ] && d.interrupts@ =~= seq![Interrupt { irq: 10, flags: 0 }])
                    &&& (t == DeviceType::Block ==> d.memory_regions@ =~= seq![
                        MemoryRegion { base: block_base(path.spec_bytes()) as usize, size: 0x1000 },
                    ] && d.interrupts@ =~= seq![Interrupt { irq: 1, flags: 0 }])
                    &&& (t == DeviceType::Interrupt ==> d.memory_regions@ =~= seq![
                        MemoryRegion { base: 0x0c000000, size: 0x4000000 },
                    ] && d.interrupts@.len() == 0)
                    &&& (t == DeviceType::Timer ==> d.memory_regions@ =~= seq![
                        MemoryRegion { base: 0x02000000, size: 0x10000 },
                    ] && d.interrupts@.len() == 0)
                    &&& (t == DeviceType::Cpu || t == DeviceType::Memory ==> d.memory_regions@.len()
                        == 0 && d.interrupts@.len() == 0)
                })
            },
        },
{
    let device_type = if str_starts_with(name, "uart") {
        DeviceType::Uart
    } else if str_starts_with(name, "virtio") {
        DeviceType::Block
    } else if str_eq_bytes(name, "plic") {
        DeviceType::Interrupt
    } else if str_eq_bytes(name, "clint") {
        DeviceType::Timer
    } else if str_starts_with(name, "cpu") {
        DeviceType::Cpu
    } else if str_eq_bytes(name, "memory") {
        DeviceType::Memory
    } else {
        return ;
    };
    let mut device = Device::new(path, device_type);
    match device_type {
        DeviceType::Uart => {
            device.add_memory_region(0x10000000, 0x100);
            device.add_interrupt(10, 0);
        },
        DeviceType::Block => {
            let base = block_region_base(path);
            device.add_memory_region(base, 0x1000);
            device.add_interrupt(1, 0);
        },
        DeviceType::Interrupt => {
            device.add_memory_region(0x0c000000, 0x4000000);
        },
        DeviceType::Timer => {
            device.add_memory_region(0x02000000, 0x10000);
        },
        _ => {},
    }
    device_manager.add_device(device);
}

/// The region base for a block device: the hexadecimal address after the
/// last `@` of the path, or the platform default.
fn block_region_base(path: &str) -> (r: usize)
    ensures
        r == block_base(path.spec_bytes()),
{
    let b = path.as_bytes();
    let n = b.len();
    proof {
        assert(b@.subrange(0, n as int) =~= b@);
    }
    let mut j: usize = n;
    while j > 0
        invariant
            n == b@.len(),
            j <= n,
            b@ == path.spec_bytes(),
            last_at_idx(b@) == last_at_idx(b@.subrange(0, j as int)),
            forall|k: int| j <= k < n ==> b@[k] != 64,
        decreases j,
    {
        if b[j - 1] == 64 {
            proof {
                assert(b@.subrange(0, j as int).last() == b@[j - 1]);
                assert(last_at_idx(b@.subrange(0, j as int)) == j - 1);
            }
            let parsed = parse_hex_slice(b, j, n);
            proof {
                assert(last_at_idx(b@) == j - 1);
                let suffix = b@.subrange(j as int, n as int);
                if parsed is Some {
                    assert(suffix.len() > 0 && all_hex(suffix) && hex_val(suffix) <= usize::MAX);
                    lemma_hex_val_nonneg(suffix);
                    assert(block_base(b@) == hex_val(suffix));
                } else {
                    assert(block_base(b@) == 0x10001000);
                }
            }
            match parsed {
                Some(v) => {
                    return v;
                },
                None => {
                    return 0x10001000;
                },
            }
        }
        proof {
            assert(b@.subrange(0, j as int).drop_last() =~= b@.subrange(0, j - 1));
            assert(b@.subrange(0, j as int).last() == b@[j - 1]);
        }
        j = j - 1;
    }
    proof {
        assert(b@.subrange(0, 0) =~= Seq::<u8>::empty());
        assert(last_at_idx(b@) == -1);
    }
    0x10001000
}

/// Parses the byte range `[from, to)` of `b` as hexadecimal.
fn parse_hex_slice(b: &[u8], from: usize, to: usize) -> (r: Option<usize>)
    requires
        from <= to <= b@.len(),
    ensures
        ({
            let s = b@.subrange(from as int, to as int);
            &&& (r is Some) <==> (s.len() > 0 && all_hex(s) && hex_val(s) <= usize::MAX)
            &&& r is Some ==> r == Some(hex_val(s) as usize)
        }),
{
    let ghost s = b@.subrange(from as int, to as int);
    let n = to - from;
    if n == 0 {
        return None;
    }
    let mut value: usize = 0;
    let mut i: usize = 0;
    while i < n
        invariant
            from <= to <= b@.len(),
            s == b@.subrange(from as int, to as int),
            n == s.len(),
            i <= n,
            all_hex(s.subrange(0, i as int)),
            value == hex_val(s.subrange(0, i as int)),
        decreases n - i,
    {
        let c = b[from + i];
        proof {
            assert(s[i as int] == b@[from + i]);
        }
        let d: usize = if 48 <= c && c <= 57 {
            (c - 48) as usize
        } else if 97 <= c && c <= 102 {
            (c - 87) as usize
        } else if 65 <= c && c <= 70 {
            (c - 55) as usize
        } else {
            proof {
                assert(!is_hex_digit(s[i as int]));
            }
            return None;
        };
        if value > (usize::MAX - 15) / 16 {
            proof {
                if all_hex(s) {
                    assert(s.subrange(0, i + 1).drop_last() =~= s.subrange(0, i as int));
                    assert(s.subrange(0, i + 1).last() == s[i as int]);
                    assert(is_hex_digit(s[i as int]));
                    assert(hex_val(s.subrange(0, i + 1)) == value * 16 + hex_digit_val(
                        s[i as int],
                    ));
                    lemma_hex_grows(s, i + 1);
                    assert(value * 16 > usize::MAX) by (nonlinear_arith)
                        requires
                            value > (usize::MAX - 15) / 16,
                    ;
                    assert(hex_digit_val(s[i as int]) >= 0);
                }
            }
            return None;
        }
        proof {
            assert(s.subrange(0, i + 1).drop_last() =~= s.subrange(0, i as int));
            assert(s.subrange(0, i + 1).last() == s[i as int]);
            assert forall|k: int| 0 <= k < i + 1 implies is_hex_digit(
                #[trigger] s.subrange(0, i + 1)[k],
            ) by {
                if k < i {
                    assert(s.subrange(0, i as int)[k] == s.subrange(0, i + 1)[k]);
                    assert(is_hex_digit(s.subrange(0, i as int)[k]));
                }
            }
        }
        value = value * 16 + d;
        i = i + 1;
    }
    proof {
        assert(s.subrange(0, n as int) =~= s);
    }
    Some(value)
}

} // verus!
