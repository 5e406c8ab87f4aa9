//! Block and transform size vocabulary shared by the AV1 reconstruction code.
use vstd::prelude::*;

verus! {

/// The transform sizes an AV1 block may be coded with (`TX_SIZES_ALL`).
#[derive(Debug, Clone, Copy, PartialEq, Eq, Structural)]
pub enum TxSize {
    Tx4x4,
    Tx8x8,
    Tx16x16,
    Tx32x32,
    Tx64x64,
    Tx4x8,
    Tx8x4,
    Tx8x16,
    Tx16x8,
    Tx16x32,
    Tx32x16,
    Tx32x64,
    Tx64x32,
    Tx4x16,
    Tx16x4,
    Tx8x32,
    Tx32x8,
    Tx16x64,
    Tx64x16,
}

/// The intra transform kinds this decoder reconstructs.
#[derive(Debug, Clone, Copy, PartialEq, Eq, Structural)]
pub enum TxType {
    DctDct,
    AdstDct,
    DctAdst,
    AdstAdst,
    Identity,
    VerticalDct,
    HorizontalDct,
}

/// The AV1 block sizes (`BLOCK_SIZES`).
#[derive(Debug, Clone, Copy, PartialEq, Eq, Structural)]
pub enum BlockSize {
    Block4x4,
    Block4x8,
    Block8x4,
    Block8x8,
    Block8x16,
    Block16x8,
    Block16x16,
    Block16x32,
    Block32x16,
    Block32x32,
    Block32x64,
    Block64x32,
    Block64x64,
    Block64x128,
    Block128x64,
    Block128x128,
    Block4x16,
    Block16x4,
    Block8x32,
    Block32x8,
    Block16x64,
    Block64x16,
}

impl TxSize {
    pub open spec fn spec_width(self) -> nat {
        match self {
            TxSize::Tx4x4 | TxSize::Tx4x8 | TxSize::Tx4x16 => 4,
            TxSize::Tx8x8 | TxSize::Tx8x4 | TxSize::Tx8x16 | TxSize::Tx8x32 => 8,
            TxSize::Tx16x16 | TxSize::Tx16x8 | TxSize::Tx16x32 | TxSize::Tx16x4
            | TxSize::Tx16x64 => 16,
            TxSize::Tx32x32 | TxSize::Tx32x16 | TxSize::Tx32x64 | TxSize::Tx32x8 => 32,
            TxSize::Tx64x64 | TxSize::Tx64x32 | TxSize::Tx64x16 => 64,
        }
    }

    pub open spec fn spec_height(self) -> nat {
        match self {
            TxSize::Tx4x4 | TxSize::Tx8x4 | TxSize::Tx16x4 => 4,
            TxSize::Tx8x8 | TxSize::Tx4x8 | TxSize::Tx16x8 | TxSize::Tx32x8 => 8,
            TxSize::Tx16x16 | TxSize::Tx8x16 | TxSize::Tx32x16 | TxSize::Tx4x16
            | TxSize::Tx64x16 => 16,
            TxSize::Tx32x32 | TxSize::Tx16x32 | TxSize::Tx64x32 | TxSize::Tx8x32 => 32,
            TxSize::Tx64x64 | TxSize::Tx32x64 | TxSize::Tx16x64 => 64,
        }
    }

    pub open spec fn spec_sample_count(self) -> nat {
        self.spec_width() * self.spec_height()
    }

    pub open spec fn spec_is_rectangular(self) -> bool {
        self.spec_width() != self.spec_height()
    }

    /// Width of the transform in samples.
    pub fn width(self) -> (width: usize)
        ensures
            width == self.spec_width(),
    {
        match self {
            TxSize::Tx4x4 | TxSize::Tx4x8 | TxSize::Tx4x16 => 4,
            TxSize::Tx8x8 | TxSize::Tx8x4 | TxSize::Tx8x16 | TxSize::Tx8x32 => 8,
            TxSize::Tx16x16 | TxSize::Tx16x8 | TxSize::Tx16x32 | TxSize::Tx16x4
            | TxSize::Tx16x64 => 16,
            TxSize::Tx32x32 | TxSize::Tx32x16 | TxSize::Tx32x64 | TxSize::Tx32x8 => 32,
            TxSize::Tx64x64 | TxSize::Tx64x32 | TxSize::Tx64x16 => 64,
        }
    }

    /// Height of the transform in samples.
    pub fn height(self) -> (height: usize)
        ensures
            height == self.spec_height(),
    {
        match self {
            TxSize::Tx4x4 | TxSize::Tx8x4 | TxSize::Tx16x4 => 4,
            TxSize::Tx8x8 | TxSize::Tx4x8 | TxSize::Tx16x8 | TxSize::Tx32x8 => 8,
            TxSize::Tx16x16 | TxSize::Tx8x16 | TxSize::Tx32x16 | TxSize::Tx4x16
            | TxSize::Tx64x16 => 16,
            TxSize::Tx32x32 | TxSize::Tx16x32 | TxSize::Tx64x32 | TxSize::Tx8x32 => 32,
            TxSize::Tx64x64 | TxSize::Tx32x64 | TxSize::Tx16x64 => 64,
        }
    }

    /// Number of samples (and coefficients) covered by the transform.
    pub fn sample_count(self) -> (count: usize)
        ensures
            count == self.spec_sample_count(),
            count <= 4096,
    {
        self.width() * self.height()
    }

    /// Whether width and height differ.
    pub fn is_rectangular(self) -> (rectangular: bool)
        ensures
            rectangular == self.spec_is_rectangular(),
    {
        self.width() != self.height()
    }

    pub open spec fn spec_dq_denom(self) -> nat {
        match self {
            TxSize::Tx32x32 | TxSize::Tx16x32 | TxSize::Tx32x16 | TxSize::Tx16x64
            | TxSize::Tx64x16 => 2,
            TxSize::Tx64x64 | TxSize::Tx32x64 | TxSize::Tx64x32 => 4,
            _ => 1,
        }
    }

    /// Divisor applied to dequantized coefficients of this size (`dqDenom`).
    pub fn dq_denom(self) -> (denom: u32)
        ensures
            denom == self.spec_dq_denom(),
    {
        match self {
            TxSize::Tx32x32 | TxSize::Tx16x32 | TxSize::Tx32x16 | TxSize::Tx16x64
            | TxSize::Tx64x16 => 2,
            TxSize::Tx64x64 | TxSize::Tx32x64 | TxSize::Tx64x32 => 4,
            _ => 1,
        }
    }
}

impl BlockSize {
    pub open spec fn spec_width(self) -> nat {
        match self {
            BlockSize::Block4x4 | BlockSize::Block4x8 | BlockSize::Block4x16 => 4,
            BlockSize::Block8x4 | BlockSize::Block8x8 | BlockSize::Block8x16
            | BlockSize::Block8x32 => 8,
            BlockSize::Block16x8 | BlockSize::Block16x16 | BlockSize::Block16x32
            | BlockSize::Block16x4 | BlockSize::Block16x64 => 16,
            BlockSize::Block32x16 | BlockSize::Block32x32 | BlockSize::Block32x64
            | BlockSize::Block32x8 => 32,
            BlockSize::Block64x32 | BlockSize::Block64x64 | BlockSize::Block64x128
            | BlockSize::Block64x16 => 64,
            BlockSize::Block128x64 | BlockSize::Block128x128 => 128,
        }
    }

    pub open spec fn spec_height(self) -> nat {
        match self {
            BlockSize::Block4x4 | BlockSize::Block8x4 | BlockSize::Block16x4 => 4,
            BlockSize::Block4x8 | BlockSize::Block8x8 | BlockSize::Block16x8
            | BlockSize::Block32x8 => 8,
            BlockSize::Block8x16 | BlockSize::Block16x16 | BlockSize::Block32x16
            | BlockSize::Block4x16 | BlockSize::Block64x16 => 16,
            BlockSize::Block16x32 | BlockSize::Block32x32 | BlockSize::Block64x32
            | BlockSize::Block8x32 => 32,
            BlockSize::Block32x64 | BlockSize::Block64x64 | BlockSize::Block128x64
            | BlockSize::Block16x64 => 64,
            BlockSize::Block64x128 | BlockSize::Block128x128 => 128,
        }
    }

    /// Width of the block in samples.
    pub fn width(self) -> (width: usize)
        ensures
            width == self.spec_width(),
    {
        match self {
            BlockSize::Block4x4 | BlockSize::Block4x8 | BlockSize::Block4x16 => 4,
            BlockSize::Block8x4 | BlockSize::Block8x8 | BlockSize::Block8x16
            | BlockSize::Block8x32 => 8,
            BlockSize::Block16x8 | BlockSize::Block16x16 | BlockSize::Block16x32
            | BlockSize::Block16x4 | BlockSize::Block16x64 => 16,
            BlockSize::Block32x16 | BlockSize::Block32x32 | BlockSize::Block32x64
            | BlockSize::Block32x8 => 32,
            BlockSize::Block64x32 | BlockSize::Block64x64 | BlockSize::Block64x128
            | BlockSize::Block64x16 => 64,
            BlockSize::Block128x64 | BlockSize::Block128x128 => 128,
        }
    }

    /// Height of the block in samples.
    pub fn height(self) -> (height: usize)
        ensures
            height == self.spec_height(),
    {
        match self {
            BlockSize::Block4x4 | BlockSize::Block8x4 | BlockSize::Block16x4 => 4,
            BlockSize::Block4x8 | BlockSize::Block8x8 | BlockSize::Block16x8
            | BlockSize::Block32x8 => 8,
            BlockSize::Block8x16 | BlockSize::Block16x16 | BlockSize::Block32x16
            | BlockSize::Block4x16 | BlockSize::Block64x16 => 16,
            BlockSize::Block16x32 | BlockSize::Block32x32 | BlockSize::Block64x32
            | BlockSize::Block8x32 => 32,
            BlockSize::Block32x64 | BlockSize::Block64x64 | BlockSize::Block128x64
            | BlockSize::Block16x64 => 64,
            BlockSize::Block64x128 | BlockSize::Block128x128 => 128,
        }
    }

    /// The largest transform that fits the block: each side is the block's
    /// side capped at 64 samples (`Max_Tx_Size_Rect`).
    pub fn largest_supported_tx_size(self) -> (tx_size: TxSize)
        ensures
            tx_size.spec_width() == if self.spec_width() < 64 { self.spec_width() } else { 64 },
            tx_size.spec_height() == if self.spec_height() < 64 { self.spec_height() } else { 64 },
    {
        match self {
            BlockSize::Block4x4 => TxSize::Tx4x4,
            BlockSize::Block4x8 => TxSize::Tx4x8,
            BlockSize::Block8x4 => TxSize::Tx8x4,
            BlockSize::Block8x8 => TxSize::Tx8x8,
            BlockSize::Block8x16 => TxSize::Tx8x16,
            BlockSize::Block16x8 => TxSize::Tx16x8,
            BlockSize::Block16x16 => TxSize::Tx16x16,
            BlockSize::Block16x32 => TxSize::Tx16x32,
            BlockSize::Block32x16 => TxSize::Tx32x16,
            BlockSize::Block32x32 => TxSize::Tx32x32,
            BlockSize::Block32x64 => TxSize::Tx32x64,
            BlockSize::Block64x32 => TxSize::Tx64x32,
            BlockSize::Block64x64 | BlockSize::Block64x128 | BlockSize::Block128x64
            | BlockSize::Block128x128 => TxSize::Tx64x64,
            BlockSize::Block4x16 => TxSize::Tx4x16,
            BlockSize::Block16x4 => TxSize::Tx16x4,
            BlockSize::Block8x32 => TxSize::Tx8x32,
            BlockSize::Block32x8 => TxSize::Tx32x8,
            BlockSize::Block16x64 => TxSize::Tx16x64,
            BlockSize::Block64x16 => TxSize::Tx64x16,
        }
    }
}


/// The name of a transform size, as `{:?}` renders it.
pub open spec fn tx_size_name(value: TxSize) -> Seq<char> {
    match value {
        TxSize::Tx4x4 => "Tx4x4"@,
        TxSize::Tx8x8 => "Tx8x8"@,
        TxSize::Tx16x16 => "Tx16x16"@,
        TxSize::Tx32x32 => "Tx32x32"@,
        TxSize::Tx64x64 => "Tx64x64"@,
        TxSize::Tx4x8 => "Tx4x8"@,
        TxSize::Tx8x4 => "Tx8x4"@,
        TxSize::Tx8x16 => "Tx8x16"@,
        TxSize::Tx16x8 => "Tx16x8"@,
        TxSize::Tx16x32 => "Tx16x32"@,
        TxSize::Tx32x16 => "Tx32x16"@,
        TxSize::Tx32x64 => "Tx32x64"@,
        TxSize::Tx64x32 => "Tx64x32"@,
        TxSize::Tx4x16 => "Tx4x16"@,
        TxSize::Tx16x4 => "Tx16x4"@,
        TxSize::Tx8x32 => "Tx8x32"@,
        TxSize::Tx32x8 => "Tx32x8"@,
        TxSize::Tx16x64 => "Tx16x64"@,
        TxSize::Tx64x16 => "Tx64x16"@,
    }
}

impl TxSize {
    /// The variant's name, as `{:?}` renders it.
    pub fn debug_name(self) -> (name: &'static str)
        ensures
            name@ == tx_size_name(self),
    {
        match self {
            TxSize::Tx4x4 => "Tx4x4",
            TxSize::Tx8x8 => "Tx8x8",
            TxSize::Tx16x16 => "Tx16x16",
            TxSize::Tx32x32 => "Tx32x32",
            TxSize::Tx64x64 => "Tx64x64",
            TxSize::Tx4x8 => "Tx4x8",
            TxSize::Tx8x4 => "Tx8x4",
            TxSize::Tx8x16 => "Tx8x16",
            TxSize::Tx16x8 => "Tx16x8",
            TxSize::Tx16x32 => "Tx16x32",
            TxSize::Tx32x16 => "Tx32x16",
            TxSize::Tx32x64 => "Tx32x64",
            TxSize::Tx64x32 => "Tx64x32",
            TxSize::Tx4x16 => "Tx4x16",
            TxSize::Tx16x4 => "Tx16x4",
            TxSize::Tx8x32 => "Tx8x32",
            TxSize::Tx32x8 => "Tx32x8",
            TxSize::Tx16x64 => "Tx16x64",
            TxSize::Tx64x16 => "Tx64x16",
        }
    }
}


/// The name of a transform type, as `{:?}` renders it.
pub open spec fn tx_type_name(value: TxType) -> Seq<char> {
    match value {
        TxType::DctDct => "DctDct"@,
        TxType::AdstDct => "AdstDct"@,
        TxType::DctAdst => "DctAdst"@,
        TxType::AdstAdst => "AdstAdst"@,
        TxType::Identity => "Identity"@,
        TxType::VerticalDct => "VerticalDct"@,
        TxType::HorizontalDct => "HorizontalDct"@,
    }
}

impl TxType {
    /// The variant's name, as `{:?}` renders it.
    pub fn debug_name(self) -> (name: &'static str)
        ensures
            name@ == tx_type_name(self),
    {
        match self {
            TxType::DctDct => "DctDct",
            TxType::AdstDct => "AdstDct",
            TxType::DctAdst => "DctAdst",
            TxType::AdstAdst => "AdstAdst",
            TxType::Identity => "Identity",
            TxType::VerticalDct => "VerticalDct",
            TxType::HorizontalDct => "HorizontalDct",
        }
    }
}

} // verus!
