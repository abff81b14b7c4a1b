//! Plants, and how likely each kind is to grow.

use vstd::prelude::*;

verus! {

pub struct VegetationPlugin;

pub const INITIAL_PLANT_COUNT: i32 = 50;

/// Number of kinds of plant.
pub const PLANT_TYPE_COUNT: usize = 8;

#[derive(Clone, Copy, Debug, PartialEq, Eq, Structural)]
pub enum PlantType {
    Anthurium,
    Daffidoil,
    Foxglove,
    Ginger,
    Heather,
    Pansies,
    Proteam,
    Scarletstar,
}

#[derive(Clone, Copy, Debug, PartialEq, Eq, Structural)]
pub struct Plant {
    pub growth_period: i32,
    pub plant_type: PlantType,
}

/// The kind of plant at place `i` of the list of kinds.
pub open spec fn plant_type_at(i: int) -> PlantType {
    if i == 0 {
        PlantType::Anthurium
    } else if i == 1 {
        PlantType::Daffidoil
    } else if i == 2 {
        PlantType::Foxglove
    } else if i == 3 {
        PlantType::Ginger
    } else if i == 4 {
        PlantType::Heather
    } else if i == 5 {
        PlantType::Pansies
    } else if i == 6 {
        PlantType::Proteam
    } else {
        PlantType::Scarletstar
    }
}

/// How likely a plant is of kind `kind`, in hundredths of a percent.
pub open spec fn chance_of(kind: PlantType) -> int {
    match kind {
        PlantType::Anthurium => 625,
        PlantType::Daffidoil => 1250,
        PlantType::Foxglove => 1250,
        PlantType::Ginger => 1250,
        PlantType::Heather => 1250,
        PlantType::Pansies => 625,
        PlantType::Proteam => 2500,
        PlantType::Scarletstar => 1250,
    }
}

/// The chances of the first `n` kinds together.
pub open spec fn chance_sum(n: int) -> int
    decreases n,
{
    if n <= 0 {
        0
    } else {
        chance_sum(n - 1) + chance_of(plant_type_at(n - 1))
    }
}

/// The chances of all kinds together are one hundred percent.
pub proof fn lemma_chances_are_whole()
    ensures
        chance_sum(PLANT_TYPE_COUNT as int) == 10000,
{
    reveal_with_fuel(chance_sum, 9);
}

impl PlantType {
    /// The kinds of plant, in the order of their declaration.
    pub fn all() -> (kinds: Vec<PlantType>)
        ensures
            kinds@.len() == PLANT_TYPE_COUNT,
            forall|i: int| 0 <= i < PLANT_TYPE_COUNT ==> #[trigger] kinds@[i] == plant_type_at(i),
    {
        let mut kinds: Vec<PlantType> = Vec::new();
        kinds.push(PlantType::Anthurium);
        kinds.push(PlantType::Daffidoil);
        kinds.push(PlantType::Foxglove);
        kinds.push(PlantType::Ginger);
        kinds.push(PlantType::Heather);
        kinds.push(PlantType::Pansies);
        kinds.push(PlantType::Proteam);
        kinds.push(PlantType::Scarletstar);
        kinds
    }

    /// How likely a plant is of this kind, in hundredths of a percent.
    pub fn spawn_chance(&self) -> (chance: u32)
        ensures
            chance == chance_of(*self),
    {
        match self {
            PlantType::Anthurium => 625,
            PlantType::Daffidoil => 1250,
            PlantType::Foxglove => 1250,
            PlantType::Ginger => 1250,
            PlantType::Heather => 1250,
            PlantType::Pansies => 625,
            PlantType::Proteam => 2500,
            PlantType::Scarletstar => 1250,
        }
    }

    /// For each kind, the chances of the kinds up to and with it together.
    pub fn cdf_array() -> (cdf: Vec<u32>)
        ensures
            cdf@.len() == PLANT_TYPE_COUNT,
            forall|i: int| 0 <= i < PLANT_TYPE_COUNT ==> #[trigger] cdf@[i] == chance_sum(i + 1),
            cdf@[PLANT_TYPE_COUNT - 1] == 10000,
    {
        let kinds: Vec<PlantType> = PlantType::all();
        let mut cdf_array: Vec<u32> = Vec::new();
        let mut acc: u32 = 0;
        let mut i: usize = 0;
        while i < kinds.len()
            invariant
                i <= kinds@.len(),
                kinds@.len() == PLANT_TYPE_COUNT,
                forall|j: int| 0 <= j < PLANT_TYPE_COUNT ==> #[trigger] kinds@[j] == plant_type_at(j),
                cdf_array@.len() == i,
                acc == chance_sum(i as int),
                acc <= 2500 * i,
                forall|j: int| 0 <= j < i ==> #[trigger] cdf_array@[j] == chance_sum(j + 1),
            decreases kinds@.len() - i,
        {
            acc += kinds[i].spawn_chance();
            cdf_array.push(acc);
            i += 1;
        }
        proof {
            lemma_chances_are_whole();
        }
        cdf_array
    }
}

} // verus!
