//! x86-64 page-table entries and tables: reading the flags of an entry,
//! finding the next-level table, and describing entries and tables as text.
use vstd::prelude::*;
use core::marker::PhantomData;
use crate::result::Result;
use crate::print::{hex_min, dec_digits, pad_left, push_hex, push_dec, push_dec_padded, push_str};

verus! {

pub const PAGE_SIZE: usize = 4096;

/// The low bits of an entry that hold attributes rather than an address.
pub const ATTR_MASK: u64 = 0xFFF;

pub const ATTR_PRESENT: u64 = 1 << 0;

pub const ATTR_WRITABLE: u64 = 1 << 1;

pub const ATTR_WRITE_THROUGH: u64 = 1 << 3;

pub const ATTR_CACHE_DISABLE: u64 = 1 << 4;

/// Number of entries of a table.
pub const TABLE_ENTRIES: usize = 512;

/// The attribute sets used when mapping pages.
#[derive(Debug, Clone, Copy, PartialEq, Eq, Structural)]
pub enum PageAttr {
    NotPresent,
    ReadWriteKernel,
    ReadWriteIo,
}

/// The attribute bits of each `PageAttr`.
pub open spec fn page_attr_bits(a: PageAttr) -> u64 {
    match a {
        PageAttr::NotPresent => 0,
        PageAttr::ReadWriteKernel => ATTR_PRESENT | ATTR_WRITABLE,
        PageAttr::ReadWriteIo => ATTR_PRESENT | ATTR_WRITABLE | ATTR_WRITE_THROUGH | ATTR_CACHE_DISABLE,
    }
}

impl PageAttr {
    /// The attribute bits.
    pub fn bits(&self) -> (r: u64)
        ensures
            r == page_attr_bits(*self),
    {
        match self {
            PageAttr::NotPresent => 0,
            PageAttr::ReadWriteKernel => ATTR_PRESENT | ATTR_WRITABLE,
            PageAttr::ReadWriteIo => ATTR_PRESENT | ATTR_WRITABLE | ATTR_WRITE_THROUGH | ATTR_CACHE_DISABLE,
        }
    }
}

/// Where a virtual address ends up: a physical address within a page of
/// one of the three page sizes.
#[derive(Debug, PartialEq, Eq, Structural)]
pub enum TranslationResult {
    PageMapped4K { phys: u64 },
    PageMapped2M { phys: u64 },
    PageMapped1G { phys: u64 },
}

/// An entry of a level-`LEVEL` table whose present entries point to a
/// table of type `NEXT`.
pub struct Entry<const LEVEL: usize, const SHIFT: usize, NEXT> {
    value: u64,
    next_type: PhantomData<NEXT>,
}

/// Bit `bit` of `v` is set.
pub open spec fn bit_set(v: u64, bit: u64) -> bool {
    v & (1u64 << bit) != 0
}

/// The flag bits of an entry: present is bit 0 (the value is odd),
/// writable bit 1, user bit 2.
pub proof fn lemma_entry_flags(v: u64)
    ensures
        bit_set(v, 0) <==> v % 2 == 1,
        bit_set(v, 1) <==> (v / 2) % 2 == 1,
        bit_set(v, 2) <==> (v / 4) % 2 == 1,
{
    assert(v & (1u64 << 0u64) != 0 <==> v % 2 == 1) by (bit_vector);
    assert(v & (1u64 << 1u64) != 0 <==> (v / 2) % 2 == 1) by (bit_vector);
    assert(v & (1u64 << 2u64) != 0 <==> (v / 4) % 2 == 1) by (bit_vector);
}

/// The attribute bits of each set: none when not present; present and
/// writable (3) for kernel memory; present, writable, write-through and
/// cache-disabled (0x1b) for I/O memory.
pub proof fn lemma_page_attr_values()
    ensures
        page_attr_bits(PageAttr::NotPresent) == 0,
        page_attr_bits(PageAttr::ReadWriteKernel) == 3,
        page_attr_bits(PageAttr::ReadWriteIo) == 0x1b,
{
    assert((1u64 << 0u64) | (1u64 << 1u64) == 3) by (bit_vector);
    assert((1u64 << 0u64) | (1u64 << 1u64) | (1u64 << 3u64) | (1u64 << 4u64) == 0x1b) by (bit_vector);
}

/// The address part of an entry value.
pub open spec fn entry_address(v: u64) -> u64 {
    v & !ATTR_MASK
}

/// The address of an entry is its value with exactly the low 12 attribute
/// bits cleared: the largest multiple of 4096 not above the value, so every
/// bit from 12 up, above 4 GiB too, is kept.
pub proof fn lemma_entry_address(v: u64)
    ensures
        entry_address(v) == v - v % 4096,
        entry_address(v) % 4096 == 0,
        entry_address(v) <= v < entry_address(v) + 4096,
        entry_address(v) >> 12u64 == v >> 12u64,
{
    assert(v & !0xFFFu64 == v - v % 4096) by (bit_vector);
    assert((v & !0xFFFu64) % 4096 == 0) by (bit_vector);
    assert((v & !0xFFFu64) >> 12u64 == v >> 12u64) by (bit_vector);
}

/// The text describing the entry of value `v` of a level-`level` table,
/// located at `addr`: `L<level>Entry @ <addr> { <value> <flags>}` with the
/// address and the value in zero-padded hexadecimal and the flags `P`/`N`
/// (present), `W`/`R` (writable), `U`/`S` (user).
pub open spec fn entry_text(level: nat, addr: nat, v: u64) -> Seq<char> {
    seq!['L'] + dec_digits(level) + "Entry @ 0x"@ + hex_min(addr, (usize::BITS / 4) as nat) + " { 0x"@
        + hex_min(v as nat, 16) + seq![' ']
        + seq![if bit_set(v, 0) { 'P' } else { 'N' }]
        + seq![if bit_set(v, 1) { 'W' } else { 'R' }]
        + seq![if bit_set(v, 2) { 'U' } else { 'S' }]
        + seq!['}']
}

impl<const LEVEL: usize, const SHIFT: usize, NEXT> Entry<LEVEL, SHIFT, NEXT> {
    /// An entry holding `value`.
    pub fn new(value: u64) -> (r: Self)
        ensures
            r.spec_value() == value,
    {
        Entry { value, next_type: PhantomData }
    }

    pub closed spec fn spec_value(&self) -> u64 {
        self.value
    }

    /// The raw value of the entry.
    pub fn read_value(&self) -> (r: u64)
        ensures
            r == self.spec_value(),
    {
        self.value
    }

    /// The entry maps something (bit 0).
    pub fn is_present(&self) -> (r: bool)
        ensures
            r == bit_set(self.spec_value(), 0),
    {
        (self.read_value() & (1 << 0)) != 0
    }

    /// The mapping allows writes (bit 1).
    pub fn is_writable(&self) -> (r: bool)
        ensures
            r == bit_set(self.spec_value(), 1),
    {
        (self.read_value() & (1 << 1)) != 0
    }

    /// The mapping is accessible from user mode (bit 2).
    pub fn is_user(&self) -> (r: bool)
        ensures
            r == bit_set(self.spec_value(), 2),
    {
        (self.read_value() & (1 << 2)) != 0
    }

    /// The physical address of the next-level table, or "Page Not Found"
    /// when the entry is not present.
    pub fn table(&self) -> (r: Result<u64>)
        ensures
            r is Ok <==> bit_set(self.spec_value(), 0),
            r matches Ok(a) ==> a == entry_address(self.spec_value()),
            r matches Ok(a) ==> a == self.spec_value() - self.spec_value() % 4096,
            r matches Err(e) ==> e@ == "Page Not Found"@,
    {
        proof {
            lemma_entry_address(self.spec_value());
        }
        if self.is_present() {
            Ok(self.value & !ATTR_MASK)
        } else {
            Err("Page Not Found")
        }
    }

    /// The text describing the entry, when it is located at `addr` (see
    /// `entry_text`).
    pub fn format(&self, addr: usize) -> (r: Vec<char>)
        ensures
            r@ == entry_text(LEVEL as nat, addr as nat, self.spec_value()),
    {
        let mut out: Vec<char> = Vec::new();
        out.push('L');
        push_dec(&mut out, LEVEL);
        push_str(&mut out, "Entry @ 0x");
        push_hex(&mut out, addr as u64, (usize::BITS / 4) as usize);
        push_str(&mut out, " { 0x");
        push_hex(&mut out, self.read_value(), 16);
        out.push(' ');
        out.push(if self.is_present() { 'P' } else { 'N' });
        out.push(if self.is_writable() { 'W' } else { 'R' });
        out.push(if self.is_user() { 'U' } else { 'S' });
        out.push('}');
        proof {
            assert(out@ =~= entry_text(LEVEL as nat, addr as nat, self.spec_value()));
        }
        out
    }
}

/// Size in bytes of one table entry.
pub const ENTRY_SIZE: usize = 8;

/// A page table of level `LEVEL`: 512 entries, each mapping `1 << SHIFT`
/// bytes, whose present entries point to tables of type `NEXT`.
pub struct Table<const LEVEL: usize, const SHIFT: usize, NEXT> {
    entry: Vec<Entry<LEVEL, SHIFT, NEXT>>,
}

/// The text of the present entries among the first `n` of a level-`level`
/// table at `addr` with entry values `vals`: one line ` entry[<i>] = <entry>`
/// per present entry, the index right-aligned in 3 columns.
pub open spec fn entries_text(level: nat, addr: nat, vals: Seq<u64>, n: int) -> Seq<char>
    decreases n,
{
    if n <= 0 {
        Seq::empty()
    } else {
        let prev = entries_text(level, addr, vals, n - 1);
        let i = n - 1;
        if bit_set(vals[i], 0) {
            prev + " entry["@ + pad_left(dec_digits(i as nat), 3) + "] = "@ + entry_text(
                level,
                (addr + ENTRY_SIZE * i) as nat,
                vals[i],
            ) + seq!['\n']
        } else {
            prev
        }
    }
}

/// The text describing a level-`level` table at `addr` with entry values
/// `vals`: a header line, the present entries, and a closing line.
pub open spec fn table_text(level: nat, addr: nat, vals: Seq<u64>) -> Seq<char> {
    seq!['L'] + dec_digits(level) + "Table @ 0x"@ + hex_min(addr, (usize::BITS / 4) as nat) + " {\n"@
        + entries_text(level, addr, vals, vals.len() as int) + "}\n"@
}

impl<const LEVEL: usize, const SHIFT: usize, NEXT> Table<LEVEL, SHIFT, NEXT> {
    #[verifier::type_invariant]
    spec fn inv(self) -> bool {
        self.entry@.len() == TABLE_ENTRIES
    }

    /// The values of the entries.
    pub closed spec fn values(&self) -> Seq<u64> {
        Seq::new(self.entry@.len(), |i: int| self.entry@[i].spec_value())
    }

    /// A table whose entries hold `values`.
    pub fn from_values(values: &[u64; 512]) -> (r: Self)
        ensures
            r.values() == values@,
    {
        let mut entry: Vec<Entry<LEVEL, SHIFT, NEXT>> = Vec::new();
        let mut i: usize = 0;
        while i < TABLE_ENTRIES
            invariant
                i <= 512,
                entry@.len() == i,
                forall|j: int| 0 <= j < i ==> (#[trigger] entry@[j]).spec_value() == values@[j],
            decreases 512 - i,
        {
            entry.push(Entry::new(values[i]));
            i = i + 1;
        }
        let r = Table { entry };
        proof {
            assert(r.values() =~= values@);
        }
        r
    }

    /// The physical address of the next-level table that entry `index`
    /// points to; `None` when there is no such entry or it is not present.
    pub fn next_level(&self, index: usize) -> (r: Option<u64>)
        ensures
            r is Some <==> index < 512 && bit_set(self.values()[index as int], 0),
            r matches Some(a) ==> a == entry_address(self.values()[index as int]),
            r matches Some(a) ==> a == self.values()[index as int] - self.values()[index as int] % 4096,
    {
        proof {
            use_type_invariant(self);
        }
        if index < self.entry.len() {
            match self.entry[index].table() {
                Ok(a) => Some(a),
                Err(_) => None,
            }
        } else {
            None
        }
    }

    /// The text describing the table, when it is located at `addr` (see
    /// `table_text`).
    pub fn format(&self, addr: usize) -> (r: Vec<char>)
        requires
            addr + PAGE_SIZE <= usize::MAX,
        ensures
            r@ == table_text(LEVEL as nat, addr as nat, self.values()),
    {
        proof {
            use_type_invariant(self);
        }
        let mut out: Vec<char> = Vec::new();
        out.push('L');
        push_dec(&mut out, LEVEL);
        push_str(&mut out, "Table @ 0x");
        push_hex(&mut out, addr as u64, (usize::BITS / 4) as usize);
        push_str(&mut out, " {\n");
        let ghost head = out@;
        let mut i: usize = 0;
        while i < TABLE_ENTRIES
            invariant
                i <= 512,
                self.entry@.len() == 512,
                addr + PAGE_SIZE <= usize::MAX,
                out@ == head + entries_text(LEVEL as nat, addr as nat, self.values(), i as int),
            decreases 512 - i,
        {
            let e = &self.entry[i];
            if e.is_present() {
                push_str(&mut out, " entry[");
                push_dec_padded(&mut out, i, 3);
                push_str(&mut out, "] = ");
                let text = e.format(addr + ENTRY_SIZE * i);
                let mut j: usize = 0;
                let ghost before = out@;
                while j < text.len()
                    invariant
                        j <= text@.len(),
                        out@ == before + text@.take(j as int),
                    decreases text@.len() - j,
                {
                    out.push(text[j]);
                    proof {
                        assert(text@.take(j + 1) =~= text@.take(j as int).push(text@[j as int]));
                    }
                    j = j + 1;
                }
                out.push('\n');
                proof {
                    assert(text@.take(j as int) =~= text@);
                    assert(out@ =~= head + entries_text(LEVEL as nat, addr as nat, self.values(), i + 1));
                }
            }
            i = i + 1;
        }
        push_str(&mut out, "}\n");
        proof {
            assert(self.values().len() == 512);
            assert(out@ =~= table_text(LEVEL as nat, addr as nat, self.values()));
        }
        out
    }
}

/// A level-1 table: its entries map 4 KiB pages.
pub type PT = Table<1, 12, [u8; PAGE_SIZE]>;

/// A level-2 table: a page directory.
pub type PD = Table<2, 21, PT>;

/// A level-3 table: a page-directory-pointer table.
pub type PDPT = Table<3, 30, PD>;

/// A level-4 table: the root of the page tables.
pub type PML4 = Table<4, 39, PDPT>;

} // verus!
