//! The item catalogue, machine kinds and the fixed recipe list.

use vstd::prelude::*;

verus! {

/// Every kind of item in the game.
#[derive(Clone, Copy, Debug, Default, PartialEq, Eq, Hash, Structural)]
pub enum ItemId {
    #[default]
    NullSet,
    Point,
    Preimage,
    Wavelet,
    LineSegment,
    ExactSequence,
    Identity,
    Square,
    Cube,
    StandingWave,
    Function,
    NeckerCube,
    Image,
    Belt,
    AxiomaticScience,
    Composer,
    Inverter,
    Embedder,
    Quotient,
    Transformer,
    KnowledgeSheaf,
    Quadrupole,
    Dynamo,
    RootOfUnity,
    Kernel,
    Quantum,
    Splitter,
    SourceMachine,
}

/// Position of an item in the catalogue order of `ItemId::all`.
pub open spec fn item_index(i: ItemId) -> nat {
    match i {
        ItemId::NullSet => 0,
        ItemId::Point => 1,
        ItemId::Preimage => 2,
        ItemId::Wavelet => 3,
        ItemId::LineSegment => 4,
        ItemId::ExactSequence => 5,
        ItemId::Identity => 6,
        ItemId::Square => 7,
        ItemId::Cube => 8,
        ItemId::StandingWave => 9,
        ItemId::Function => 10,
        ItemId::NeckerCube => 11,
        ItemId::Image => 12,
        ItemId::Belt => 13,
        ItemId::AxiomaticScience => 14,
        ItemId::Composer => 15,
        ItemId::Inverter => 16,
        ItemId::Embedder => 17,
        ItemId::Quotient => 18,
        ItemId::Transformer => 19,
        ItemId::KnowledgeSheaf => 20,
        ItemId::Quadrupole => 21,
        ItemId::Dynamo => 22,
        ItemId::RootOfUnity => 23,
        ItemId::Kernel => 24,
        ItemId::Quantum => 25,
        ItemId::Splitter => 26,
        ItemId::SourceMachine => 27,
    }
}

/// Number of items in the catalogue.
pub const ITEM_COUNT: usize = 28;

/// The catalogue, in its fixed order.
pub open spec fn spec_all_items() -> Seq<ItemId> {
    seq![
        ItemId::NullSet,
        ItemId::Point,
        ItemId::Preimage,
        ItemId::Wavelet,
        ItemId::LineSegment,
        ItemId::ExactSequence,
        ItemId::Identity,
        ItemId::Square,
        ItemId::Cube,
        ItemId::StandingWave,
        ItemId::Function,
        ItemId::NeckerCube,
        ItemId::Image,
        ItemId::Belt,
        ItemId::AxiomaticScience,
        ItemId::Composer,
        ItemId::Inverter,
        ItemId::Embedder,
        ItemId::Quotient,
        ItemId::Transformer,
        ItemId::KnowledgeSheaf,
        ItemId::Quadrupole,
        ItemId::Dynamo,
        ItemId::RootOfUnity,
        ItemId::Kernel,
        ItemId::Quantum,
        ItemId::Splitter,
        ItemId::SourceMachine
    ]
}

/// Display name of each item.
pub open spec fn item_display_name(i: ItemId) -> Seq<char> {
    match i {
        ItemId::NullSet => "Null Set"@,
        ItemId::Point => "Point"@,
        ItemId::Preimage => "Preimage"@,
        ItemId::Wavelet => "Wavelet"@,
        ItemId::LineSegment => "Line Segment"@,
        ItemId::ExactSequence => "Exact Sequence"@,
        ItemId::Identity => "Identity"@,
        ItemId::Square => "Square"@,
        ItemId::Cube => "Cube"@,
        ItemId::StandingWave => "Standing Wave"@,
        ItemId::Function => "Function"@,
        ItemId::NeckerCube => "Necker Cube"@,
        ItemId::Image => "Image"@,
        ItemId::Belt => "Belt"@,
        ItemId::AxiomaticScience => "Axiomatic Science"@,
        ItemId::Composer => "Composer"@,
        ItemId::Inverter => "Inverter"@,
        ItemId::Embedder => "Embedder"@,
        ItemId::Quotient => "Quotient"@,
        ItemId::Transformer => "Transformer"@,
        ItemId::KnowledgeSheaf => "Knowledge Sheaf"@,
        ItemId::Quadrupole => "Quadrupole"@,
        ItemId::Dynamo => "Dynamo"@,
        ItemId::RootOfUnity => "Root of Unity"@,
        ItemId::Kernel => "Kernel"@,
        ItemId::Quantum => "Quantum"@,
        ItemId::Splitter => "Splitter"@,
        ItemId::SourceMachine => "Source"@,
    }
}

/// Flavour text of each item.
pub open spec fn item_description(i: ItemId) -> Seq<char> {
    match i {
        ItemId::NullSet => "Crystallized absence. The Surface produces it where the metric thins toward zero."@,
        ItemId::Point => "Dimensionless position-object. The atomic unit of geometry on the Surface."@,
        ItemId::Preimage => "Ghost of a function that hasn't been applied yet. Shimmering, unstable."@,
        ItemId::Wavelet => "Oscillatory fragment of the Surface's vibrational modes."@,
        ItemId::LineSegment => "Two points, connected. The simplest structure."@,
        ItemId::ExactSequence => "Three preimages composed into algebraic certainty."@,
        ItemId::Identity => "A null set made useful. The do-nothing that does everything."@,
        ItemId::Square => "Four line segments. A flat patch of order on the curved Surface."@,
        ItemId::Cube => "Six squares folded into three dimensions. Impossibly stable."@,
        ItemId::StandingWave => "Two wavelets in resonance. The Surface hums through it."@,
        ItemId::Function => "A preimage realized. The mapping made concrete."@,
        ItemId::NeckerCube => "A cube inverted. It flickers between two interpretations."@,
        ItemId::Image => "A preimage inverted. What was latent is now manifest."@,
        ItemId::Belt => "Manufactured logistics. Carries items along grid edges."@,
        ItemId::AxiomaticScience => "Research feedstock. Distilled from cubes into pure axioms."@,
        ItemId::Composer => "The machine that combines. Interlocking rotating rings."@,
        ItemId::Inverter => "The machine that reverses. A mirrored prism."@,
        ItemId::Embedder => "Maps one object into the structure of another. T2 machine."@,
        ItemId::Quotient => "Divides one structure by another. Produces quotient and remainder."@,
        ItemId::Transformer => "Applies transformation across multiple inputs simultaneously."@,
        ItemId::KnowledgeSheaf => "Science consumer. Pages fan through proofs when active."@,
        ItemId::Quadrupole => "Electrical pole. Transmits power across the grid."@,
        ItemId::Dynamo => "Power generator. Two quadrupoles in harness."@,
        ItemId::RootOfUnity => "A preimage embedded in unity. Cycles back to itself."@,
        ItemId::Kernel => "An identity embedded in a preimage. The null space made real."@,
        ItemId::Quantum => "A standing wave embedded in a cube. Probability crystallized."@,
        ItemId::Splitter => "Universal junction. Merges, splits, or balances item flows depending on belt connections."@,
        ItemId::SourceMachine => "Debug machine. Produces any item from nothing."@,
    }
}

/// Inventory category of each item.
pub open spec fn item_category(i: ItemId) -> ItemCategory {
    match i {
        ItemId::NullSet => ItemCategory::RawResource,
        ItemId::Point => ItemCategory::RawResource,
        ItemId::Preimage => ItemCategory::RawResource,
        ItemId::Wavelet => ItemCategory::RawResource,
        ItemId::LineSegment => ItemCategory::Intermediate,
        ItemId::ExactSequence => ItemCategory::Intermediate,
        ItemId::Identity => ItemCategory::Intermediate,
        ItemId::Square => ItemCategory::Intermediate,
        ItemId::Cube => ItemCategory::Intermediate,
        ItemId::StandingWave => ItemCategory::Intermediate,
        ItemId::Function => ItemCategory::Intermediate,
        ItemId::NeckerCube => ItemCategory::Intermediate,
        ItemId::Image => ItemCategory::Intermediate,
        ItemId::Belt => ItemCategory::Infrastructure,
        ItemId::AxiomaticScience => ItemCategory::Intermediate,
        ItemId::Composer => ItemCategory::Machine,
        ItemId::Inverter => ItemCategory::Machine,
        ItemId::Embedder => ItemCategory::Machine,
        ItemId::Quotient => ItemCategory::Machine,
        ItemId::Transformer => ItemCategory::Machine,
        ItemId::KnowledgeSheaf => ItemCategory::Machine,
        ItemId::Quadrupole => ItemCategory::Infrastructure,
        ItemId::Dynamo => ItemCategory::Infrastructure,
        ItemId::RootOfUnity => ItemCategory::Advanced,
        ItemId::Kernel => ItemCategory::Advanced,
        ItemId::Quantum => ItemCategory::Advanced,
        ItemId::Splitter => ItemCategory::Infrastructure,
        ItemId::SourceMachine => ItemCategory::Machine,
    }
}

/// Tech tier of each item.
pub open spec fn item_tier(i: ItemId) -> u32 {
    match i {
        ItemId::NullSet => 0,
        ItemId::Point => 0,
        ItemId::Preimage => 0,
        ItemId::Wavelet => 0,
        ItemId::LineSegment => 1,
        ItemId::ExactSequence => 1,
        ItemId::Identity => 1,
        ItemId::Square => 1,
        ItemId::Cube => 1,
        ItemId::StandingWave => 1,
        ItemId::Function => 1,
        ItemId::NeckerCube => 1,
        ItemId::Image => 1,
        ItemId::Belt => 1,
        ItemId::AxiomaticScience => 1,
        ItemId::Composer => 1,
        ItemId::Inverter => 1,
        ItemId::Embedder => 2,
        ItemId::Quotient => 2,
        ItemId::Transformer => 2,
        ItemId::KnowledgeSheaf => 1,
        ItemId::Quadrupole => 1,
        ItemId::Dynamo => 1,
        ItemId::RootOfUnity => 2,
        ItemId::Kernel => 2,
        ItemId::Quantum => 2,
        ItemId::Splitter => 0,
        ItemId::SourceMachine => 0,
    }
}

/// The outline shape of an item's icon: circles for raw resources, octagons
/// for belts, splitters and power buildings, diamonds for machines.
pub open spec fn item_icon_shape(item: ItemId) -> IconShape {
    match item {
        ItemId::NullSet => IconShape::Circle,
        ItemId::Point => IconShape::Circle,
        ItemId::Preimage => IconShape::Circle,
        ItemId::Wavelet => IconShape::Circle,
        ItemId::LineSegment => IconShape::Square,
        ItemId::ExactSequence => IconShape::Triangle,
        ItemId::Identity => IconShape::Square,
        ItemId::Square => IconShape::Square,
        ItemId::Cube => IconShape::Hexagon,
        ItemId::StandingWave => IconShape::Triangle,
        ItemId::Function => IconShape::Triangle,
        ItemId::NeckerCube => IconShape::Hexagon,
        ItemId::Image => IconShape::Triangle,
        ItemId::AxiomaticScience => IconShape::Hexagon,
        ItemId::Belt => IconShape::Octagon,
        ItemId::Quadrupole => IconShape::Octagon,
        ItemId::Dynamo => IconShape::Octagon,
        ItemId::Splitter => IconShape::Octagon,
        ItemId::Composer => IconShape::Diamond,
        ItemId::Inverter => IconShape::Diamond,
        ItemId::Embedder => IconShape::Diamond,
        ItemId::Quotient => IconShape::Diamond,
        ItemId::Transformer => IconShape::Diamond,
        ItemId::KnowledgeSheaf => IconShape::Diamond,
        ItemId::RootOfUnity => IconShape::Star,
        ItemId::Kernel => IconShape::Star,
        ItemId::Quantum => IconShape::Star,
        ItemId::SourceMachine => IconShape::Diamond,
    }
}

impl ItemId {
    /// The outline shape of this item's icon.
    pub fn icon_shape(&self) -> (r: IconShape)
        ensures
            r == item_icon_shape(*self),
    {
        match self {
            ItemId::NullSet => IconShape::Circle,
            ItemId::Point => IconShape::Circle,
            ItemId::Preimage => IconShape::Circle,
            ItemId::Wavelet => IconShape::Circle,
            ItemId::LineSegment => IconShape::Square,
            ItemId::ExactSequence => IconShape::Triangle,
            ItemId::Identity => IconShape::Square,
            ItemId::Square => IconShape::Square,
            ItemId::Cube => IconShape::Hexagon,
            ItemId::StandingWave => IconShape::Triangle,
            ItemId::Function => IconShape::Triangle,
            ItemId::NeckerCube => IconShape::Hexagon,
            ItemId::Image => IconShape::Triangle,
            ItemId::AxiomaticScience => IconShape::Hexagon,
            ItemId::Belt => IconShape::Octagon,
            ItemId::Quadrupole => IconShape::Octagon,
            ItemId::Dynamo => IconShape::Octagon,
            ItemId::Splitter => IconShape::Octagon,
            ItemId::Composer => IconShape::Diamond,
            ItemId::Inverter => IconShape::Diamond,
            ItemId::Embedder => IconShape::Diamond,
            ItemId::Quotient => IconShape::Diamond,
            ItemId::Transformer => IconShape::Diamond,
            ItemId::KnowledgeSheaf => IconShape::Diamond,
            ItemId::RootOfUnity => IconShape::Star,
            ItemId::Kernel => IconShape::Star,
            ItemId::Quantum => IconShape::Star,
            ItemId::SourceMachine => IconShape::Diamond,
        }
    }

    /// All items in catalogue order.
    pub fn all() -> (r: &'static [ItemId])
        ensures
            r@ == spec_all_items(),
    {
        &[
            ItemId::NullSet,
            ItemId::Point,
            ItemId::Preimage,
            ItemId::Wavelet,
            ItemId::LineSegment,
            ItemId::ExactSequence,
            ItemId::Identity,
            ItemId::Square,
            ItemId::Cube,
            ItemId::StandingWave,
            ItemId::Function,
            ItemId::NeckerCube,
            ItemId::Image,
            ItemId::Belt,
            ItemId::AxiomaticScience,
            ItemId::Composer,
            ItemId::Inverter,
            ItemId::Embedder,
            ItemId::Quotient,
            ItemId::Transformer,
            ItemId::KnowledgeSheaf,
            ItemId::Quadrupole,
            ItemId::Dynamo,
            ItemId::RootOfUnity,
            ItemId::Kernel,
            ItemId::Quantum,
            ItemId::Splitter,
            ItemId::SourceMachine
        ]
    }

    /// Position of this item in the catalogue.
    pub fn index(&self) -> (r: usize)
        ensures
            r == item_index(*self),
            r < ITEM_COUNT,
    {
        match self {
            ItemId::NullSet => 0,
            ItemId::Point => 1,
            ItemId::Preimage => 2,
            ItemId::Wavelet => 3,
            ItemId::LineSegment => 4,
            ItemId::ExactSequence => 5,
            ItemId::Identity => 6,
            ItemId::Square => 7,
            ItemId::Cube => 8,
            ItemId::StandingWave => 9,
            ItemId::Function => 10,
            ItemId::NeckerCube => 11,
            ItemId::Image => 12,
            ItemId::Belt => 13,
            ItemId::AxiomaticScience => 14,
            ItemId::Composer => 15,
            ItemId::Inverter => 16,
            ItemId::Embedder => 17,
            ItemId::Quotient => 18,
            ItemId::Transformer => 19,
            ItemId::KnowledgeSheaf => 20,
            ItemId::Quadrupole => 21,
            ItemId::Dynamo => 22,
            ItemId::RootOfUnity => 23,
            ItemId::Kernel => 24,
            ItemId::Quantum => 25,
            ItemId::Splitter => 26,
            ItemId::SourceMachine => 27,
        }
    }

    /// The item at a catalogue position.
    pub fn from_index(k: usize) -> (r: ItemId)
        requires
            k < ITEM_COUNT,
        ensures
            item_index(r) == k,
            r == spec_all_items()[k as int],
    {
        match k {
            0 => ItemId::NullSet,
            1 => ItemId::Point,
            2 => ItemId::Preimage,
            3 => ItemId::Wavelet,
            4 => ItemId::LineSegment,
            5 => ItemId::ExactSequence,
            6 => ItemId::Identity,
            7 => ItemId::Square,
            8 => ItemId::Cube,
            9 => ItemId::StandingWave,
            10 => ItemId::Function,
            11 => ItemId::NeckerCube,
            12 => ItemId::Image,
            13 => ItemId::Belt,
            14 => ItemId::AxiomaticScience,
            15 => ItemId::Composer,
            16 => ItemId::Inverter,
            17 => ItemId::Embedder,
            18 => ItemId::Quotient,
            19 => ItemId::Transformer,
            20 => ItemId::KnowledgeSheaf,
            21 => ItemId::Quadrupole,
            22 => ItemId::Dynamo,
            23 => ItemId::RootOfUnity,
            24 => ItemId::Kernel,
            25 => ItemId::Quantum,
            26 => ItemId::Splitter,
            _ => ItemId::SourceMachine,
        }
    }

    pub fn display_name(&self) -> (r: &'static str)
        ensures
            r@ == item_display_name(*self),
    {
        match self {
            ItemId::NullSet => "Null Set",
            ItemId::Point => "Point",
            ItemId::Preimage => "Preimage",
            ItemId::Wavelet => "Wavelet",
            ItemId::LineSegment => "Line Segment",
            ItemId::ExactSequence => "Exact Sequence",
            ItemId::Identity => "Identity",
            ItemId::Square => "Square",
            ItemId::Cube => "Cube",
            ItemId::StandingWave => "Standing Wave",
            ItemId::Function => "Function",
            ItemId::NeckerCube => "Necker Cube",
            ItemId::Image => "Image",
            ItemId::Belt => "Belt",
            ItemId::AxiomaticScience => "Axiomatic Science",
            ItemId::Composer => "Composer",
            ItemId::Inverter => "Inverter",
            ItemId::Embedder => "Embedder",
            ItemId::Quotient => "Quotient",
            ItemId::Transformer => "Transformer",
            ItemId::KnowledgeSheaf => "Knowledge Sheaf",
            ItemId::Quadrupole => "Quadrupole",
            ItemId::Dynamo => "Dynamo",
            ItemId::RootOfUnity => "Root of Unity",
            ItemId::Kernel => "Kernel",
            ItemId::Quantum => "Quantum",
            ItemId::Splitter => "Splitter",
            ItemId::SourceMachine => "Source",
        }
    }

    pub fn category(&self) -> (r: ItemCategory)
        ensures
            r == item_category(*self),
    {
        match self {
            ItemId::NullSet => ItemCategory::RawResource,
            ItemId::Point => ItemCategory::RawResource,
            ItemId::Preimage => ItemCategory::RawResource,
            ItemId::Wavelet => ItemCategory::RawResource,
            ItemId::LineSegment => ItemCategory::Intermediate,
            ItemId::ExactSequence => ItemCategory::Intermediate,
            ItemId::Identity => ItemCategory::Intermediate,
            ItemId::Square => ItemCategory::Intermediate,
            ItemId::Cube => ItemCategory::Intermediate,
            ItemId::StandingWave => ItemCategory::Intermediate,
            ItemId::Function => ItemCategory::Intermediate,
            ItemId::NeckerCube => ItemCategory::Intermediate,
            ItemId::Image => ItemCategory::Intermediate,
            ItemId::Belt => ItemCategory::Infrastructure,
            ItemId::AxiomaticScience => ItemCategory::Intermediate,
            ItemId::Composer => ItemCategory::Machine,
            ItemId::Inverter => ItemCategory::Machine,
            ItemId::Embedder => ItemCategory::Machine,
            ItemId::Quotient => ItemCategory::Machine,
            ItemId::Transformer => ItemCategory::Machine,
            ItemId::KnowledgeSheaf => ItemCategory::Machine,
            ItemId::Quadrupole => ItemCategory::Infrastructure,
            ItemId::Dynamo => ItemCategory::Infrastructure,
            ItemId::RootOfUnity => ItemCategory::Advanced,
            ItemId::Kernel => ItemCategory::Advanced,
            ItemId::Quantum => ItemCategory::Advanced,
            ItemId::Splitter => ItemCategory::Infrastructure,
            ItemId::SourceMachine => ItemCategory::Machine,
        }
    }

    pub fn tier(&self) -> (r: u32)
        ensures
            r == item_tier(*self),
    {
        match self {
            ItemId::NullSet => 0,
            ItemId::Point => 0,
            ItemId::Preimage => 0,
            ItemId::Wavelet => 0,
            ItemId::LineSegment => 1,
            ItemId::ExactSequence => 1,
            ItemId::Identity => 1,
            ItemId::Square => 1,
            ItemId::Cube => 1,
            ItemId::StandingWave => 1,
            ItemId::Function => 1,
            ItemId::NeckerCube => 1,
            ItemId::Image => 1,
            ItemId::Belt => 1,
            ItemId::AxiomaticScience => 1,
            ItemId::Composer => 1,
            ItemId::Inverter => 1,
            ItemId::Embedder => 2,
            ItemId::Quotient => 2,
            ItemId::Transformer => 2,
            ItemId::KnowledgeSheaf => 1,
            ItemId::Quadrupole => 1,
            ItemId::Dynamo => 1,
            ItemId::RootOfUnity => 2,
            ItemId::Kernel => 2,
            ItemId::Quantum => 2,
            ItemId::Splitter => 0,
            ItemId::SourceMachine => 0,
        }
    }

    pub fn description(&self) -> (r: &'static str)
        ensures
            r@ == item_description(*self),
    {
        match self {
            ItemId::NullSet => "Crystallized absence. The Surface produces it where the metric thins toward zero.",
            ItemId::Point => "Dimensionless position-object. The atomic unit of geometry on the Surface.",
            ItemId::Preimage => "Ghost of a function that hasn't been applied yet. Shimmering, unstable.",
            ItemId::Wavelet => "Oscillatory fragment of the Surface's vibrational modes.",
            ItemId::LineSegment => "Two points, connected. The simplest structure.",
            ItemId::ExactSequence => "Three preimages composed into algebraic certainty.",
            ItemId::Identity => "A null set made useful. The do-nothing that does everything.",
            ItemId::Square => "Four line segments. A flat patch of order on the curved Surface.",
            ItemId::Cube => "Six squares folded into three dimensions. Impossibly stable.",
            ItemId::StandingWave => "Two wavelets in resonance. The Surface hums through it.",
            ItemId::Function => "A preimage realized. The mapping made concrete.",
            ItemId::NeckerCube => "A cube inverted. It flickers between two interpretations.",
            ItemId::Image => "A preimage inverted. What was latent is now manifest.",
            ItemId::Belt => "Manufactured logistics. Carries items along grid edges.",
            ItemId::AxiomaticScience => "Research feedstock. Distilled from cubes into pure axioms.",
            ItemId::Composer => "The machine that combines. Interlocking rotating rings.",
            ItemId::Inverter => "The machine that reverses. A mirrored prism.",
            ItemId::Embedder => "Maps one object into the structure of another. T2 machine.",
            ItemId::Quotient => "Divides one structure by another. Produces quotient and remainder.",
            ItemId::Transformer => "Applies transformation across multiple inputs simultaneously.",
            ItemId::KnowledgeSheaf => "Science consumer. Pages fan through proofs when active.",
            ItemId::Quadrupole => "Electrical pole. Transmits power across the grid.",
            ItemId::Dynamo => "Power generator. Two quadrupoles in harness.",
            ItemId::RootOfUnity => "A preimage embedded in unity. Cycles back to itself.",
            ItemId::Kernel => "An identity embedded in a preimage. The null space made real.",
            ItemId::Quantum => "A standing wave embedded in a cube. Probability crystallized.",
            ItemId::Splitter => "Universal junction. Merges, splits, or balances item flows depending on belt connections.",
            ItemId::SourceMachine => "Debug machine. Produces any item from nothing.",
        }
    }
}

/// The catalogue lists every item exactly once: each item sits at its own index.
pub proof fn lemma_all_items_complete(i: ItemId)
    ensures
        spec_all_items().len() == ITEM_COUNT,
        item_index(i) < ITEM_COUNT,
        spec_all_items()[item_index(i) as int] == i,
{
}

/// Distinct catalogue positions hold distinct items.
pub proof fn lemma_all_items_distinct(a: int, b: int)
    requires
        0 <= a < ITEM_COUNT,
        0 <= b < ITEM_COUNT,
        a != b,
    ensures
        spec_all_items()[a] != spec_all_items()[b],
{
    assert(forall|k: int| 0 <= k < ITEM_COUNT ==> item_index(#[trigger] spec_all_items()[k]) == k) by {
        assert(item_index(spec_all_items()[0]) == 0);
        assert(item_index(spec_all_items()[1]) == 1);
        assert(item_index(spec_all_items()[2]) == 2);
        assert(item_index(spec_all_items()[3]) == 3);
        assert(item_index(spec_all_items()[4]) == 4);
        assert(item_index(spec_all_items()[5]) == 5);
        assert(item_index(spec_all_items()[6]) == 6);
        assert(item_index(spec_all_items()[7]) == 7);
        assert(item_index(spec_all_items()[8]) == 8);
        assert(item_index(spec_all_items()[9]) == 9);
        assert(item_index(spec_all_items()[10]) == 10);
        assert(item_index(spec_all_items()[11]) == 11);
        assert(item_index(spec_all_items()[12]) == 12);
        assert(item_index(spec_all_items()[13]) == 13);
        assert(item_index(spec_all_items()[14]) == 14);
        assert(item_index(spec_all_items()[15]) == 15);
        assert(item_index(spec_all_items()[16]) == 16);
        assert(item_index(spec_all_items()[17]) == 17);
        assert(item_index(spec_all_items()[18]) == 18);
        assert(item_index(spec_all_items()[19]) == 19);
        assert(item_index(spec_all_items()[20]) == 20);
        assert(item_index(spec_all_items()[21]) == 21);
        assert(item_index(spec_all_items()[22]) == 22);
        assert(item_index(spec_all_items()[23]) == 23);
        assert(item_index(spec_all_items()[24]) == 24);
        assert(item_index(spec_all_items()[25]) == 25);
        assert(item_index(spec_all_items()[26]) == 26);
        assert(item_index(spec_all_items()[27]) == 27);
    }
    assert(item_index(spec_all_items()[a]) == a);
    assert(item_index(spec_all_items()[b]) == b);
}

/// Every item has a non-empty display name and a non-empty description.
pub proof fn lemma_item_texts_nonempty(i: ItemId)
    ensures
        item_display_name(i).len() > 0,
        item_description(i).len() > 0,
{
    match i {
        ItemId::NullSet => {
            reveal_strlit("Null Set");
            reveal_strlit("Crystallized absence. The Surface produces it where the metric thins toward zero.");
        },
        ItemId::Point => {
            reveal_strlit("Point");
            reveal_strlit("Dimensionless position-object. The atomic unit of geometry on the Surface.");
        },
        ItemId::Preimage => {
            reveal_strlit("Preimage");
            reveal_strlit("Ghost of a function that hasn't been applied yet. Shimmering, unstable.");
        },
        ItemId::Wavelet => {
            reveal_strlit("Wavelet");
            reveal_strlit("Oscillatory fragment of the Surface's vibrational modes.");
        },
        ItemId::LineSegment => {
            reveal_strlit("Line Segment");
            reveal_strlit("Two points, connected. The simplest structure.");
        },
        ItemId::ExactSequence => {
            reveal_strlit("Exact Sequence");
            reveal_strlit("Three preimages composed into algebraic certainty.");
        },
        ItemId::Identity => {
            reveal_strlit("Identity");
            reveal_strlit("A null set made useful. The do-nothing that does everything.");
        },
        ItemId::Square => {
            reveal_strlit("Square");
            reveal_strlit("Four line segments. A flat patch of order on the curved Surface.");
        },
        ItemId::Cube => {
            reveal_strlit("Cube");
            reveal_strlit("Six squares folded into three dimensions. Impossibly stable.");
        },
        ItemId::StandingWave => {
            reveal_strlit("Standing Wave");
            reveal_strlit("Two wavelets in resonance. The Surface hums through it.");
        },
        ItemId::Function => {
            reveal_strlit("Function");
            reveal_strlit("A preimage realized. The mapping made concrete.");
        },
        ItemId::NeckerCube => {
            reveal_strlit("Necker Cube");
            reveal_strlit("A cube inverted. It flickers between two interpretations.");
        },
        ItemId::Image => {
            reveal_strlit("Image");
            reveal_strlit("A preimage inverted. What was latent is now manifest.");
        },
        ItemId::Belt => {
            reveal_strlit("Belt");
            reveal_strlit("Manufactured logistics. Carries items along grid edges.");
        },
        ItemId::AxiomaticScience => {
            reveal_strlit("Axiomatic Science");
            reveal_strlit("Research feedstock. Distilled from cubes into pure axioms.");
        },
        ItemId::Composer => {
            reveal_strlit("Composer");
            reveal_strlit("The machine that combines. Interlocking rotating rings.");
        },
        ItemId::Inverter => {
            reveal_strlit("Inverter");
            reveal_strlit("The machine that reverses. A mirrored prism.");
        },
        ItemId::Embedder => {
            reveal_strlit("Embedder");
            reveal_strlit("Maps one object into the structure of another. T2 machine.");
        },
        ItemId::Quotient => {
            reveal_strlit("Quotient");
            reveal_strlit("Divides one structure by another. Produces quotient and remainder.");
        },
        ItemId::Transformer => {
            reveal_strlit("Transformer");
            reveal_strlit("Applies transformation across multiple inputs simultaneously.");
        },
        ItemId::KnowledgeSheaf => {
            reveal_strlit("Knowledge Sheaf");
            reveal_strlit("Science consumer. Pages fan through proofs when active.");
        },
        ItemId::Quadrupole => {
            reveal_strlit("Quadrupole");
            reveal_strlit("Electrical pole. Transmits power across the grid.");
        },
        ItemId::Dynamo => {
            reveal_strlit("Dynamo");
            reveal_strlit("Power generator. Two quadrupoles in harness.");
        },
        ItemId::RootOfUnity => {
            reveal_strlit("Root of Unity");
            reveal_strlit("A preimage embedded in unity. Cycles back to itself.");
        },
        ItemId::Kernel => {
            reveal_strlit("Kernel");
            reveal_strlit("An identity embedded in a preimage. The null space made real.");
        },
        ItemId::Quantum => {
            reveal_strlit("Quantum");
            reveal_strlit("A standing wave embedded in a cube. Probability crystallized.");
        },
        ItemId::Splitter => {
            reveal_strlit("Splitter");
            reveal_strlit("Universal junction. Merges, splits, or balances item flows depending on belt connections.");
        },
        ItemId::SourceMachine => {
            reveal_strlit("Source");
            reveal_strlit("Debug machine. Produces any item from nothing.");
        },
    }
}

#[derive(Clone, Copy, Debug, PartialEq, Eq, Hash, Structural)]
pub enum ItemCategory {
    RawResource,
    Intermediate,
    Infrastructure,
    Machine,
    Advanced,
}

pub open spec fn category_display_name(c: ItemCategory) -> Seq<char> {
    match c {
        ItemCategory::RawResource => "Raw Resources"@,
        ItemCategory::Intermediate => "Intermediates"@,
        ItemCategory::Infrastructure => "Infrastructure"@,
        ItemCategory::Machine => "Machines"@,
        ItemCategory::Advanced => "Advanced"@,
    }
}

impl ItemCategory {
    pub fn display_name(&self) -> (r: &'static str)
        ensures
            r@ == category_display_name(*self),
    {
        match self {
            ItemCategory::RawResource => "Raw Resources",
            ItemCategory::Intermediate => "Intermediates",
            ItemCategory::Infrastructure => "Infrastructure",
            ItemCategory::Machine => "Machines",
            ItemCategory::Advanced => "Advanced",
        }
    }

    pub fn all() -> (r: &'static [ItemCategory])
        ensures
            r@ == seq![
                ItemCategory::RawResource,
                ItemCategory::Intermediate,
                ItemCategory::Infrastructure,
                ItemCategory::Machine,
                ItemCategory::Advanced,
            ],
    {
        &[
            ItemCategory::RawResource,
            ItemCategory::Intermediate,
            ItemCategory::Infrastructure,
            ItemCategory::Machine,
            ItemCategory::Advanced,
        ]
    }
}

/// Outline shape of an item icon.
#[derive(Clone, Copy, Debug, PartialEq, Eq, Structural)]
pub enum IconShape {
    Circle,
    Triangle,
    Square,
    Hexagon,
    Diamond,
    Octagon,
    Star,
}

#[derive(Clone, Copy, Debug, PartialEq, Eq, Hash, Structural)]
pub enum MachineType {
    Composer,
    Inverter,
    Embedder,
    Quotient,
    Transformer,
    Source,
}

pub open spec fn machine_display_name(m: MachineType) -> Seq<char> {
    match m {
        MachineType::Composer => "Composer"@,
        MachineType::Inverter => "Inverter"@,
        MachineType::Embedder => "Embedder"@,
        MachineType::Quotient => "Quotient"@,
        MachineType::Transformer => "Transformer"@,
        MachineType::Source => "Source"@,
    }
}

/// Footprint (width, height) of a machine facing North.
pub open spec fn machine_footprint(m: MachineType) -> (i32, i32) {
    match m {
        MachineType::Source => (1, 1),
        MachineType::Composer => (2, 2),
        _ => (3, 3),
    }
}

/// Position of a machine kind in declaration order.
pub open spec fn machine_index(m: MachineType) -> nat {
    match m {
        MachineType::Composer => 0,
        MachineType::Inverter => 1,
        MachineType::Embedder => 2,
        MachineType::Quotient => 3,
        MachineType::Transformer => 4,
        MachineType::Source => 5,
    }
}

/// Number of machine kinds.
pub const MACHINE_TYPE_COUNT: usize = 6;

impl MachineType {
    pub fn display_name(&self) -> (r: &'static str)
        ensures
            r@ == machine_display_name(*self),
    {
        match self {
            MachineType::Composer => "Composer",
            MachineType::Inverter => "Inverter",
            MachineType::Embedder => "Embedder",
            MachineType::Quotient => "Quotient",
            MachineType::Transformer => "Transformer",
            MachineType::Source => "Source",
        }
    }

    /// Footprint in grid cells: (width, height), facing North.
    pub fn footprint(&self) -> (r: (i32, i32))
        ensures
            r == machine_footprint(*self),
    {
        match self {
            MachineType::Source => (1, 1),
            MachineType::Composer => (2, 2),
            MachineType::Inverter | MachineType::Embedder | MachineType::Quotient
            | MachineType::Transformer => (3, 3),
        }
    }

    /// Position of this machine kind in declaration order.
    pub fn index(&self) -> (r: usize)
        ensures
            r == machine_index(*self),
            r < MACHINE_TYPE_COUNT,
    {
        match self {
            MachineType::Composer => 0,
            MachineType::Inverter => 1,
            MachineType::Embedder => 2,
            MachineType::Quotient => 3,
            MachineType::Transformer => 4,
            MachineType::Source => 5,
        }
    }

    /// The machine kind at a declaration position.
    pub fn from_index(k: usize) -> (r: MachineType)
        requires
            k < MACHINE_TYPE_COUNT,
        ensures
            machine_index(r) == k,
    {
        match k {
            0 => MachineType::Composer,
            1 => MachineType::Inverter,
            2 => MachineType::Embedder,
            3 => MachineType::Quotient,
            4 => MachineType::Transformer,
            _ => MachineType::Source,
        }
    }
}

/// A crafting recipe.
#[derive(Clone, Debug)]
pub struct Recipe {
    pub machine: MachineType,
    pub inputs: Vec<(ItemId, u32)>,
    pub output: ItemId,
    pub output_count: u32,
}

/// The plain content of a recipe: machine, inputs, output and output count.
pub open spec fn recipe_model(r: Recipe) -> (MachineType, Seq<(ItemId, u32)>, ItemId, u32) {
    (r.machine, r.inputs@, r.output, r.output_count)
}

/// The fixed recipe list, in order.
pub open spec fn spec_all_recipes() -> Seq<(MachineType, Seq<(ItemId, u32)>, ItemId, u32)> {
    seq![
        (MachineType::Composer, seq![(ItemId::Point, 2u32)], ItemId::LineSegment, 1u32),
        (MachineType::Composer, seq![(ItemId::Preimage, 3u32)], ItemId::ExactSequence, 1u32),
        (MachineType::Composer, seq![(ItemId::NullSet, 1u32)], ItemId::Identity, 1u32),
        (MachineType::Composer, seq![(ItemId::LineSegment, 4u32)], ItemId::Square, 1u32),
        (MachineType::Composer, seq![(ItemId::Square, 6u32)], ItemId::Cube, 1u32),
        (MachineType::Composer, seq![(ItemId::Wavelet, 2u32)], ItemId::StandingWave, 1u32),
        (MachineType::Inverter, seq![(ItemId::Preimage, 1u32)], ItemId::Function, 1u32),
        (MachineType::Inverter, seq![(ItemId::Cube, 1u32)], ItemId::NeckerCube, 1u32),
        (MachineType::Inverter, seq![(ItemId::Preimage, 1u32)], ItemId::Image, 1u32),
        (MachineType::Composer, seq![(ItemId::LineSegment, 1u32)], ItemId::Belt, 1u32),
        (MachineType::Composer, seq![(ItemId::Cube, 1u32)], ItemId::AxiomaticScience, 1u32),
        (MachineType::Composer, seq![(ItemId::Function, 2u32)], ItemId::Composer, 1u32),
        (MachineType::Inverter, seq![(ItemId::Composer, 1u32)], ItemId::Inverter, 1u32),
        (MachineType::Composer, seq![(ItemId::AxiomaticScience, 12u32)], ItemId::KnowledgeSheaf, 1u32),
        (MachineType::Composer, seq![(ItemId::Identity, 4u32)], ItemId::Quadrupole, 1u32),
        (MachineType::Composer, seq![(ItemId::Quadrupole, 2u32)], ItemId::Dynamo, 1u32),
        (MachineType::Embedder, seq![(ItemId::Preimage, 1u32), (ItemId::Identity, 1u32)], ItemId::RootOfUnity, 1u32),
        (MachineType::Embedder, seq![(ItemId::Identity, 1u32), (ItemId::Preimage, 1u32)], ItemId::Kernel, 1u32),
        (MachineType::Embedder, seq![(ItemId::StandingWave, 1u32), (ItemId::Cube, 1u32)], ItemId::Quantum, 1u32),
        (MachineType::Source, Seq::<(ItemId, u32)>::empty(), ItemId::NullSet, 1u32),
        (MachineType::Source, Seq::<(ItemId, u32)>::empty(), ItemId::Point, 1u32),
        (MachineType::Source, Seq::<(ItemId, u32)>::empty(), ItemId::Preimage, 1u32),
        (MachineType::Source, Seq::<(ItemId, u32)>::empty(), ItemId::Wavelet, 1u32),
        (MachineType::Source, Seq::<(ItemId, u32)>::empty(), ItemId::LineSegment, 1u32),
        (MachineType::Source, Seq::<(ItemId, u32)>::empty(), ItemId::ExactSequence, 1u32),
        (MachineType::Source, Seq::<(ItemId, u32)>::empty(), ItemId::Identity, 1u32),
        (MachineType::Source, Seq::<(ItemId, u32)>::empty(), ItemId::Square, 1u32),
        (MachineType::Source, Seq::<(ItemId, u32)>::empty(), ItemId::Cube, 1u32),
        (MachineType::Source, Seq::<(ItemId, u32)>::empty(), ItemId::StandingWave, 1u32),
        (MachineType::Source, Seq::<(ItemId, u32)>::empty(), ItemId::Function, 1u32),
        (MachineType::Source, Seq::<(ItemId, u32)>::empty(), ItemId::NeckerCube, 1u32),
        (MachineType::Source, Seq::<(ItemId, u32)>::empty(), ItemId::Image, 1u32),
        (MachineType::Source, Seq::<(ItemId, u32)>::empty(), ItemId::Belt, 1u32),
        (MachineType::Source, Seq::<(ItemId, u32)>::empty(), ItemId::AxiomaticScience, 1u32),
        (MachineType::Source, Seq::<(ItemId, u32)>::empty(), ItemId::RootOfUnity, 1u32),
        (MachineType::Source, Seq::<(ItemId, u32)>::empty(), ItemId::Kernel, 1u32),
        (MachineType::Source, Seq::<(ItemId, u32)>::empty(), ItemId::Quantum, 1u32)
    ]
}

/// Number of recipes in the fixed list.
pub const RECIPE_COUNT: usize = 37;

fn recipe(machine: MachineType, inputs: Vec<(ItemId, u32)>, output: ItemId) -> (r: Recipe)
    ensures
        recipe_model(r) == (machine, inputs@, output, 1u32),
{
    Recipe { machine, inputs, output, output_count: 1 }
}

pub fn all_recipes() -> (r: Vec<Recipe>)
    ensures
        r.len() == RECIPE_COUNT,
        forall|j: int| 0 <= j < RECIPE_COUNT ==> recipe_model(#[trigger] r@[j]) == spec_all_recipes()[j],
{
    let c = MachineType::Composer;
    let i = MachineType::Inverter;
    let e = MachineType::Embedder;
    let s = MachineType::Source;
    let mut v: Vec<Recipe> = Vec::new();
    v.push(recipe(c, vec![(ItemId::Point, 2)], ItemId::LineSegment));
    assert(recipe_model(v@[0]) == spec_all_recipes()[0]);
    v.push(recipe(c, vec![(ItemId::Preimage, 3)], ItemId::ExactSequence));
    assert(recipe_model(v@[1]) == spec_all_recipes()[1]);
    v.push(recipe(c, vec![(ItemId::NullSet, 1)], ItemId::Identity));
    assert(recipe_model(v@[2]) == spec_all_recipes()[2]);
    v.push(recipe(c, vec![(ItemId::LineSegment, 4)], ItemId::Square));
    assert(recipe_model(v@[3]) == spec_all_recipes()[3]);
    v.push(recipe(c, vec![(ItemId::Square, 6)], ItemId::Cube));
    assert(recipe_model(v@[4]) == spec_all_recipes()[4]);
    v.push(recipe(c, vec![(ItemId::Wavelet, 2)], ItemId::StandingWave));
    assert(recipe_model(v@[5]) == spec_all_recipes()[5]);
    v.push(recipe(i, vec![(ItemId::Preimage, 1)], ItemId::Function));
    assert(recipe_model(v@[6]) == spec_all_recipes()[6]);
    v.push(recipe(i, vec![(ItemId::Cube, 1)], ItemId::NeckerCube));
    assert(recipe_model(v@[7]) == spec_all_recipes()[7]);
    v.push(recipe(i, vec![(ItemId::Preimage, 1)], ItemId::Image));
    assert(recipe_model(v@[8]) == spec_all_recipes()[8]);
    v.push(recipe(c, vec![(ItemId::LineSegment, 1)], ItemId::Belt));
    assert(recipe_model(v@[9]) == spec_all_recipes()[9]);
    v.push(recipe(c, vec![(ItemId::Cube, 1)], ItemId::AxiomaticScience));
    assert(recipe_model(v@[10]) == spec_all_recipes()[10]);
    v.push(recipe(c, vec![(ItemId::Function, 2)], ItemId::Composer));
    assert(recipe_model(v@[11]) == spec_all_recipes()[11]);
    v.push(recipe(i, vec![(ItemId::Composer, 1)], ItemId::Inverter));
    assert(recipe_model(v@[12]) == spec_all_recipes()[12]);
    v.push(recipe(c, vec![(ItemId::AxiomaticScience, 12)], ItemId::KnowledgeSheaf));
    assert(recipe_model(v@[13]) == spec_all_recipes()[13]);
    v.push(recipe(c, vec![(ItemId::Identity, 4)], ItemId::Quadrupole));
    assert(recipe_model(v@[14]) == spec_all_recipes()[14]);
    v.push(recipe(c, vec![(ItemId::Quadrupole, 2)], ItemId::Dynamo));
    assert(recipe_model(v@[15]) == spec_all_recipes()[15]);
    v.push(recipe(e, vec![(ItemId::Preimage, 1), (ItemId::Identity, 1)], ItemId::RootOfUnity));
    assert(recipe_model(v@[16]) == spec_all_recipes()[16]);
    v.push(recipe(e, vec![(ItemId::Identity, 1), (ItemId::Preimage, 1)], ItemId::Kernel));
    assert(recipe_model(v@[17]) == spec_all_recipes()[17]);
    v.push(recipe(e, vec![(ItemId::StandingWave, 1), (ItemId::Cube, 1)], ItemId::Quantum));
    assert(recipe_model(v@[18]) == spec_all_recipes()[18]);
    v.push(recipe(s, Vec::new(), ItemId::NullSet));
    assert(recipe_model(v@[19]) == spec_all_recipes()[19]);
    v.push(recipe(s, Vec::new(), ItemId::Point));
    assert(recipe_model(v@[20]) == spec_all_recipes()[20]);
    v.push(recipe(s, Vec::new(), ItemId::Preimage));
    assert(recipe_model(v@[21]) == spec_all_recipes()[21]);
    v.push(recipe(s, Vec::new(), ItemId::Wavelet));
    assert(recipe_model(v@[22]) == spec_all_recipes()[22]);
    v.push(recipe(s, Vec::new(), ItemId::LineSegment));
    assert(recipe_model(v@[23]) == spec_all_recipes()[23]);
    v.push(recipe(s, Vec::new(), ItemId::ExactSequence));
    assert(recipe_model(v@[24]) == spec_all_recipes()[24]);
    v.push(recipe(s, Vec::new(), ItemId::Identity));
    assert(recipe_model(v@[25]) == spec_all_recipes()[25]);
    v.push(recipe(s, Vec::new(), ItemId::Square));
    assert(recipe_model(v@[26]) == spec_all_recipes()[26]);
    v.push(recipe(s, Vec::new(), ItemId::Cube));
    assert(recipe_model(v@[27]) == spec_all_recipes()[27]);
    v.push(recipe(s, Vec::new(), ItemId::StandingWave));
    assert(recipe_model(v@[28]) == spec_all_recipes()[28]);
    v.push(recipe(s, Vec::new(), ItemId::Function));
    assert(recipe_model(v@[29]) == spec_all_recipes()[29]);
    v.push(recipe(s, Vec::new(), ItemId::NeckerCube));
    assert(recipe_model(v@[30]) == spec_all_recipes()[30]);
    v.push(recipe(s, Vec::new(), ItemId::Image));
    assert(recipe_model(v@[31]) == spec_all_recipes()[31]);
    v.push(recipe(s, Vec::new(), ItemId::Belt));
    assert(recipe_model(v@[32]) == spec_all_recipes()[32]);
    v.push(recipe(s, Vec::new(), ItemId::AxiomaticScience));
    assert(recipe_model(v@[33]) == spec_all_recipes()[33]);
    v.push(recipe(s, Vec::new(), ItemId::RootOfUnity));
    assert(recipe_model(v@[34]) == spec_all_recipes()[34]);
    v.push(recipe(s, Vec::new(), ItemId::Kernel));
    assert(recipe_model(v@[35]) == spec_all_recipes()[35]);
    v.push(recipe(s, Vec::new(), ItemId::Quantum));
    assert(recipe_model(v@[36]) == spec_all_recipes()[36]);
    v
}

/// Every recipe input asks for a positive count, and every recipe yields a positive count.
pub proof fn lemma_recipe_counts_positive(j: int, k: int)
    requires
        0 <= j < RECIPE_COUNT,
        0 <= k < spec_all_recipes()[j].1.len(),
    ensures
        spec_all_recipes()[j].1[k].1 > 0,
        spec_all_recipes()[j].3 > 0,
{
    let s = spec_all_recipes();
    assert(s[0].1 == seq![(ItemId::Point, 2u32)] && s[0].3 == 1u32);
    assert(s[1].1 == seq![(ItemId::Preimage, 3u32)] && s[1].3 == 1u32);
    assert(s[2].1 == seq![(ItemId::NullSet, 1u32)] && s[2].3 == 1u32);
    assert(s[3].1 == seq![(ItemId::LineSegment, 4u32)] && s[3].3 == 1u32);
    assert(s[4].1 == seq![(ItemId::Square, 6u32)] && s[4].3 == 1u32);
    assert(s[5].1 == seq![(ItemId::Wavelet, 2u32)] && s[5].3 == 1u32);
    assert(s[6].1 == seq![(ItemId::Preimage, 1u32)] && s[6].3 == 1u32);
    assert(s[7].1 == seq![(ItemId::Cube, 1u32)] && s[7].3 == 1u32);
    assert(s[8].1 == seq![(ItemId::Preimage, 1u32)] && s[8].3 == 1u32);
    assert(s[9].1 == seq![(ItemId::LineSegment, 1u32)] && s[9].3 == 1u32);
    assert(s[10].1 == seq![(ItemId::Cube, 1u32)] && s[10].3 == 1u32);
    assert(s[11].1 == seq![(ItemId::Function, 2u32)] && s[11].3 == 1u32);
    assert(s[12].1 == seq![(ItemId::Composer, 1u32)] && s[12].3 == 1u32);
    assert(s[13].1 == seq![(ItemId::AxiomaticScience, 12u32)] && s[13].3 == 1u32);
    assert(s[14].1 == seq![(ItemId::Identity, 4u32)] && s[14].3 == 1u32);
    assert(s[15].1 == seq![(ItemId::Quadrupole, 2u32)] && s[15].3 == 1u32);
    assert(s[16].1 == seq![(ItemId::Preimage, 1u32), (ItemId::Identity, 1u32)] && s[16].3 == 1u32);
    assert(s[17].1 == seq![(ItemId::Identity, 1u32), (ItemId::Preimage, 1u32)] && s[17].3 == 1u32);
    assert(s[18].1 == seq![(ItemId::StandingWave, 1u32), (ItemId::Cube, 1u32)] && s[18].3 == 1u32);
    assert(s[19].1 == Seq::<(ItemId, u32)>::empty() && s[19].3 == 1u32);
    assert(s[20].1 == Seq::<(ItemId, u32)>::empty() && s[20].3 == 1u32);
    assert(s[21].1 == Seq::<(ItemId, u32)>::empty() && s[21].3 == 1u32);
    assert(s[22].1 == Seq::<(ItemId, u32)>::empty() && s[22].3 == 1u32);
    assert(s[23].1 == Seq::<(ItemId, u32)>::empty() && s[23].3 == 1u32);
    assert(s[24].1 == Seq::<(ItemId, u32)>::empty() && s[24].3 == 1u32);
    assert(s[25].1 == Seq::<(ItemId, u32)>::empty() && s[25].3 == 1u32);
    assert(s[26].1 == Seq::<(ItemId, u32)>::empty() && s[26].3 == 1u32);
    assert(s[27].1 == Seq::<(ItemId, u32)>::empty() && s[27].3 == 1u32);
    assert(s[28].1 == Seq::<(ItemId, u32)>::empty() && s[28].3 == 1u32);
    assert(s[29].1 == Seq::<(ItemId, u32)>::empty() && s[29].3 == 1u32);
    assert(s[30].1 == Seq::<(ItemId, u32)>::empty() && s[30].3 == 1u32);
    assert(s[31].1 == Seq::<(ItemId, u32)>::empty() && s[31].3 == 1u32);
    assert(s[32].1 == Seq::<(ItemId, u32)>::empty() && s[32].3 == 1u32);
    assert(s[33].1 == Seq::<(ItemId, u32)>::empty() && s[33].3 == 1u32);
    assert(s[34].1 == Seq::<(ItemId, u32)>::empty() && s[34].3 == 1u32);
    assert(s[35].1 == Seq::<(ItemId, u32)>::empty() && s[35].3 == 1u32);
    assert(s[36].1 == Seq::<(ItemId, u32)>::empty() && s[36].3 == 1u32);
}

} // verus!
