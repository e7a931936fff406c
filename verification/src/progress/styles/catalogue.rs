//! What the catalogue promises of its styles as a whole: within a theme,
//! every style goes by its own name, so a style can be looked up by it.

use vstd::prelude::*;
use crate::progress::ProgressStyle;
use crate::progress::styles::music::{
    MusicalStaff, PianoKeyboard, Metronome, VinylRecord, DrumKit, SoundWaveform, CassetteReels, ConductorBaton, SheetScroll, TuningFork, VolumeKnob, BeatPulse,
};
use crate::progress::styles::nature::{
    GrowingVine, GrassBlade, Sunrise, RainGauge, TreeRings, MountainSnow, FourSeasons, FlowerBloom, FallingLeaves, LightningBolt,
};
use crate::progress::styles::nintendo::{
    MarioRun, ZeldaHearts, MetroidETanks, TetrisWell, DuckHunt, Excitebike, PunchOutStars, ContraSpread, MegaManWeapon, IceClimberUp, DonkeyBarrel,
};
use crate::progress::styles::noise::{
    ValueNoiseFill, FbmContour, GradientNoiseFill, DomainWarp, FlowField, WorleyCell, VoronoiDiagram, DlaGrowth, BrownianTrail, CurlNoise, TopoContour, Plasma,
};
use crate::progress::styles::numbertheory::{
    Sieve, UlamSpiral, PrimeCounting, Collatz, FibonacciSpiral, PascalMod, TotientHistogram, SternBrocot, ContinuedFraction, ModularCircle, Recaman, DigitalRoot,
};
use crate::progress::styles::ocean::{
    RisingTide, BubblesRising, FishSwim, WaveCrest, SonarPing, DepthGauge, JellyfishPulse, CoralReef, Seaweed, RippleInterference,
};
use crate::progress::styles::penrose::{
    PenroseP3, PenroseP2, SunPattern, GirihTiles, AmmannBars, DeBruijnPentagrid, DecagonFractal, QuasicrystalDiffraction, PinwheelTiling, TruchetQuasi,
};
use crate::progress::styles::plants::{
    Seedling, FernFiddlehead, BambooShoot, IvyTrellis, CactusArms, SunflowerSeeds, MushroomCap, Succulent, RootSystem, Bonsai,
};
use crate::progress::styles::platonic::{
    Tetrahedron, Cube, Octahedron, Dodecahedron, Icosahedron, Merkaba, StarOctangulum, Cuboctahedron, NestedSolids, StellatedDodecahedron, UnfoldingNet,
};

verus! {

/// Name of style `k` of the `music` theme, in catalogue order.
pub open spec fn music_name(k: int) -> Seq<char> {
    if k == 0 {
        MusicalStaff.style_name()
    } else if k == 1 {
        PianoKeyboard.style_name()
    } else if k == 2 {
        Metronome.style_name()
    } else if k == 3 {
        VinylRecord.style_name()
    } else if k == 4 {
        DrumKit.style_name()
    } else if k == 5 {
        SoundWaveform.style_name()
    } else if k == 6 {
        CassetteReels.style_name()
    } else if k == 7 {
        ConductorBaton.style_name()
    } else if k == 8 {
        SheetScroll.style_name()
    } else if k == 9 {
        TuningFork.style_name()
    } else if k == 10 {
        VolumeKnob.style_name()
    } else {
        BeatPulse.style_name()
    }
}

/// Every `music` style has its own name.
pub proof fn lemma_music_names_distinct()
    ensures
        forall|i: int, j: int| 0 <= i < j < 12 ==> #[trigger] music_name(i) != #[trigger] music_name(j),
{
    reveal_strlit("musical-staff");
    assert("musical-staff"@.len() == 13 && "musical-staff"@[0] == 'm');
    reveal_strlit("piano-keyboard");
    assert("piano-keyboard"@.len() == 14 && "piano-keyboard"@[0] == 'p');
    reveal_strlit("metronome");
    assert("metronome"@.len() == 9 && "metronome"@[0] == 'm');
    reveal_strlit("vinyl-record");
    assert("vinyl-record"@.len() == 12 && "vinyl-record"@[0] == 'v');
    reveal_strlit("drum-kit");
    assert("drum-kit"@.len() == 8 && "drum-kit"@[0] == 'd');
    reveal_strlit("sound-waveform");
    assert("sound-waveform"@.len() == 14 && "sound-waveform"@[0] == 's');
    reveal_strlit("cassette-reels");
    assert("cassette-reels"@.len() == 14 && "cassette-reels"@[0] == 'c');
    reveal_strlit("conductor-baton");
    assert("conductor-baton"@.len() == 15 && "conductor-baton"@[0] == 'c');
    reveal_strlit("sheet-scroll");
    assert("sheet-scroll"@.len() == 12 && "sheet-scroll"@[0] == 's');
    reveal_strlit("tuning-fork");
    assert("tuning-fork"@.len() == 11 && "tuning-fork"@[0] == 't');
    reveal_strlit("volume-knob");
    assert("volume-knob"@.len() == 11 && "volume-knob"@[0] == 'v');
    reveal_strlit("beat-pulse");
    assert("beat-pulse"@.len() == 10 && "beat-pulse"@[0] == 'b');
}

/// Name of style `k` of the `nature` theme, in catalogue order.
pub open spec fn nature_name(k: int) -> Seq<char> {
    if k == 0 {
        GrowingVine.style_name()
    } else if k == 1 {
        GrassBlade.style_name()
    } else if k == 2 {
        Sunrise.style_name()
    } else if k == 3 {
        RainGauge.style_name()
    } else if k == 4 {
        TreeRings.style_name()
    } else if k == 5 {
        MountainSnow.style_name()
    } else if k == 6 {
        FourSeasons.style_name()
    } else if k == 7 {
        FlowerBloom.style_name()
    } else if k == 8 {
        FallingLeaves.style_name()
    } else {
        LightningBolt.style_name()
    }
}

/// Every `nature` style has its own name.
pub proof fn lemma_nature_names_distinct()
    ensures
        forall|i: int, j: int| 0 <= i < j < 10 ==> #[trigger] nature_name(i) != #[trigger] nature_name(j),
{
    reveal_strlit("growing-vine");
    assert("growing-vine"@.len() == 12 && "growing-vine"@[0] == 'g' && "growing-vine"@[1] == 'r' && "growing-vine"@[2] == 'o');
    reveal_strlit("grass-blades");
    assert("grass-blades"@.len() == 12 && "grass-blades"@[0] == 'g' && "grass-blades"@[1] == 'r' && "grass-blades"@[2] == 'a');
    reveal_strlit("sunrise");
    assert("sunrise"@.len() == 7 && "sunrise"@[0] == 's' && "sunrise"@[1] == 'u' && "sunrise"@[2] == 'n');
    reveal_strlit("rain-gauge");
    assert("rain-gauge"@.len() == 10 && "rain-gauge"@[0] == 'r' && "rain-gauge"@[1] == 'a' && "rain-gauge"@[2] == 'i');
    reveal_strlit("tree-rings");
    assert("tree-rings"@.len() == 10 && "tree-rings"@[0] == 't' && "tree-rings"@[1] == 'r' && "tree-rings"@[2] == 'e');
    reveal_strlit("mountain-snow");
    assert("mountain-snow"@.len() == 13 && "mountain-snow"@[0] == 'm' && "mountain-snow"@[1] == 'o' && "mountain-snow"@[2] == 'u');
    reveal_strlit("four-seasons");
    assert("four-seasons"@.len() == 12 && "four-seasons"@[0] == 'f' && "four-seasons"@[1] == 'o' && "four-seasons"@[2] == 'u');
    reveal_strlit("flower-bloom");
    assert("flower-bloom"@.len() == 12 && "flower-bloom"@[0] == 'f' && "flower-bloom"@[1] == 'l' && "flower-bloom"@[2] == 'o');
    reveal_strlit("falling-leaves");
    assert("falling-leaves"@.len() == 14 && "falling-leaves"@[0] == 'f' && "falling-leaves"@[1] == 'a' && "falling-leaves"@[2] == 'l');
    reveal_strlit("lightning-bolt");
    assert("lightning-bolt"@.len() == 14 && "lightning-bolt"@[0] == 'l' && "lightning-bolt"@[1] == 'i' && "lightning-bolt"@[2] == 'g');
}

/// Name of style `k` of the `nintendo` theme, in catalogue order.
pub open spec fn nintendo_name(k: int) -> Seq<char> {
    if k == 0 {
        MarioRun.style_name()
    } else if k == 1 {
        ZeldaHearts.style_name()
    } else if k == 2 {
        MetroidETanks.style_name()
    } else if k == 3 {
        TetrisWell.style_name()
    } else if k == 4 {
        DuckHunt.style_name()
    } else if k == 5 {
        Excitebike.style_name()
    } else if k == 6 {
        PunchOutStars.style_name()
    } else if k == 7 {
        ContraSpread.style_name()
    } else if k == 8 {
        MegaManWeapon.style_name()
    } else if k == 9 {
        IceClimberUp.style_name()
    } else {
        DonkeyBarrel.style_name()
    }
}

/// Every `nintendo` style has its own name.
pub proof fn lemma_nintendo_names_distinct()
    ensures
        forall|i: int, j: int| 0 <= i < j < 11 ==> #[trigger] nintendo_name(i) != #[trigger] nintendo_name(j),
{
    reveal_strlit("mario-run");
    assert("mario-run"@.len() == 9 && "mario-run"@[0] == 'm' && "mario-run"@[1] == 'a' && "mario-run"@[2] == 'r');
    reveal_strlit("zelda-hearts");
    assert("zelda-hearts"@.len() == 12 && "zelda-hearts"@[0] == 'z' && "zelda-hearts"@[1] == 'e' && "zelda-hearts"@[2] == 'l');
    reveal_strlit("metroid-etanks");
    assert("metroid-etanks"@.len() == 14 && "metroid-etanks"@[0] == 'm' && "metroid-etanks"@[1] == 'e' && "metroid-etanks"@[2] == 't');
    reveal_strlit("tetris-well");
    assert("tetris-well"@.len() == 11 && "tetris-well"@[0] == 't' && "tetris-well"@[1] == 'e' && "tetris-well"@[2] == 't');
    reveal_strlit("duck-hunt");
    assert("duck-hunt"@.len() == 9 && "duck-hunt"@[0] == 'd' && "duck-hunt"@[1] == 'u' && "duck-hunt"@[2] == 'c');
    reveal_strlit("excitebike");
    assert("excitebike"@.len() == 10 && "excitebike"@[0] == 'e' && "excitebike"@[1] == 'x' && "excitebike"@[2] == 'c');
    reveal_strlit("punchout-stars");
    assert("punchout-stars"@.len() == 14 && "punchout-stars"@[0] == 'p' && "punchout-stars"@[1] == 'u' && "punchout-stars"@[2] == 'n');
    reveal_strlit("contra-spread");
    assert("contra-spread"@.len() == 13 && "contra-spread"@[0] == 'c' && "contra-spread"@[1] == 'o' && "contra-spread"@[2] == 'n');
    reveal_strlit("megaman-weapon");
    assert("megaman-weapon"@.len() == 14 && "megaman-weapon"@[0] == 'm' && "megaman-weapon"@[1] == 'e' && "megaman-weapon"@[2] == 'g');
    reveal_strlit("iceclimber-up");
    assert("iceclimber-up"@.len() == 13 && "iceclimber-up"@[0] == 'i' && "iceclimber-up"@[1] == 'c' && "iceclimber-up"@[2] == 'e');
    reveal_strlit("donkey-barrel");
    assert("donkey-barrel"@.len() == 13 && "donkey-barrel"@[0] == 'd' && "donkey-barrel"@[1] == 'o' && "donkey-barrel"@[2] == 'n');
}

/// Name of style `k` of the `noise` theme, in catalogue order.
pub open spec fn noise_name(k: int) -> Seq<char> {
    if k == 0 {
        ValueNoiseFill.style_name()
    } else if k == 1 {
        FbmContour.style_name()
    } else if k == 2 {
        GradientNoiseFill.style_name()
    } else if k == 3 {
        DomainWarp.style_name()
    } else if k == 4 {
        FlowField.style_name()
    } else if k == 5 {
        WorleyCell.style_name()
    } else if k == 6 {
        VoronoiDiagram.style_name()
    } else if k == 7 {
        DlaGrowth.style_name()
    } else if k == 8 {
        BrownianTrail.style_name()
    } else if k == 9 {
        CurlNoise.style_name()
    } else if k == 10 {
        TopoContour.style_name()
    } else {
        Plasma.style_name()
    }
}

/// Every `noise` style has its own name.
pub proof fn lemma_noise_names_distinct()
    ensures
        forall|i: int, j: int| 0 <= i < j < 12 ==> #[trigger] noise_name(i) != #[trigger] noise_name(j),
{
    reveal_strlit("value-noise-fill");
    assert("value-noise-fill"@.len() == 16 && "value-noise-fill"@[0] == 'v');
    reveal_strlit("fbm-contour");
    assert("fbm-contour"@.len() == 11 && "fbm-contour"@[0] == 'f');
    reveal_strlit("gradient-noise-fill");
    assert("gradient-noise-fill"@.len() == 19 && "gradient-noise-fill"@[0] == 'g');
    reveal_strlit("domain-warp");
    assert("domain-warp"@.len() == 11 && "domain-warp"@[0] == 'd');
    reveal_strlit("flow-field");
    assert("flow-field"@.len() == 10 && "flow-field"@[0] == 'f');
    reveal_strlit("worley-cell");
    assert("worley-cell"@.len() == 11 && "worley-cell"@[0] == 'w');
    reveal_strlit("voronoi-diagram");
    assert("voronoi-diagram"@.len() == 15 && "voronoi-diagram"@[0] == 'v');
    reveal_strlit("dla-growth");
    assert("dla-growth"@.len() == 10 && "dla-growth"@[0] == 'd');
    reveal_strlit("brownian-trail");
    assert("brownian-trail"@.len() == 14 && "brownian-trail"@[0] == 'b');
    reveal_strlit("curl-noise");
    assert("curl-noise"@.len() == 10 && "curl-noise"@[0] == 'c');
    reveal_strlit("topo-contour");
    assert("topo-contour"@.len() == 12 && "topo-contour"@[0] == 't');
    reveal_strlit("plasma");
    assert("plasma"@.len() == 6 && "plasma"@[0] == 'p');
}

/// Name of style `k` of the `numbertheory` theme, in catalogue order.
pub open spec fn numbertheory_name(k: int) -> Seq<char> {
    if k == 0 {
        Sieve.style_name()
    } else if k == 1 {
        UlamSpiral.style_name()
    } else if k == 2 {
        PrimeCounting.style_name()
    } else if k == 3 {
        Collatz.style_name()
    } else if k == 4 {
        FibonacciSpiral.style_name()
    } else if k == 5 {
        PascalMod.style_name()
    } else if k == 6 {
        TotientHistogram.style_name()
    } else if k == 7 {
        SternBrocot.style_name()
    } else if k == 8 {
        ContinuedFraction.style_name()
    } else if k == 9 {
        ModularCircle.style_name()
    } else if k == 10 {
        Recaman.style_name()
    } else {
        DigitalRoot.style_name()
    }
}

/// Every `numbertheory` style has its own name.
pub proof fn lemma_numbertheory_names_distinct()
    ensures
        forall|i: int, j: int| 0 <= i < j < 12 ==> #[trigger] numbertheory_name(i) != #[trigger] numbertheory_name(j),
{
    reveal_strlit("sieve-eratosthenes");
    assert("sieve-eratosthenes"@.len() == 18 && "sieve-eratosthenes"@[0] == 's');
    reveal_strlit("ulam-spiral");
    assert("ulam-spiral"@.len() == 11 && "ulam-spiral"@[0] == 'u');
    reveal_strlit("prime-counting");
    assert("prime-counting"@.len() == 14 && "prime-counting"@[0] == 'p');
    reveal_strlit("collatz");
    assert("collatz"@.len() == 7 && "collatz"@[0] == 'c');
    reveal_strlit("fibonacci-spiral");
    assert("fibonacci-spiral"@.len() == 16 && "fibonacci-spiral"@[0] == 'f');
    reveal_strlit("pascal-mod");
    assert("pascal-mod"@.len() == 10 && "pascal-mod"@[0] == 'p');
    reveal_strlit("totient-histogram");
    assert("totient-histogram"@.len() == 17 && "totient-histogram"@[0] == 't');
    reveal_strlit("stern-brocot");
    assert("stern-brocot"@.len() == 12 && "stern-brocot"@[0] == 's');
    reveal_strlit("continued-fraction-phi");
    assert("continued-fraction-phi"@.len() == 22 && "continued-fraction-phi"@[0] == 'c');
    reveal_strlit("modular-circle");
    assert("modular-circle"@.len() == 14 && "modular-circle"@[0] == 'm');
    reveal_strlit("recaman");
    assert("recaman"@.len() == 7 && "recaman"@[0] == 'r');
    reveal_strlit("digital-root-vortex");
    assert("digital-root-vortex"@.len() == 19 && "digital-root-vortex"@[0] == 'd');
}

/// Name of style `k` of the `ocean` theme, in catalogue order.
pub open spec fn ocean_name(k: int) -> Seq<char> {
    if k == 0 {
        RisingTide.style_name()
    } else if k == 1 {
        BubblesRising.style_name()
    } else if k == 2 {
        FishSwim.style_name()
    } else if k == 3 {
        WaveCrest.style_name()
    } else if k == 4 {
        SonarPing.style_name()
    } else if k == 5 {
        DepthGauge.style_name()
    } else if k == 6 {
        JellyfishPulse.style_name()
    } else if k == 7 {
        CoralReef.style_name()
    } else if k == 8 {
        Seaweed.style_name()
    } else {
        RippleInterference.style_name()
    }
}

/// Every `ocean` style has its own name.
pub proof fn lemma_ocean_names_distinct()
    ensures
        forall|i: int, j: int| 0 <= i < j < 10 ==> #[trigger] ocean_name(i) != #[trigger] ocean_name(j),
{
    reveal_strlit("rising-tide");
    assert("rising-tide"@.len() == 11 && "rising-tide"@[0] == 'r');
    reveal_strlit("bubbles-rising");
    assert("bubbles-rising"@.len() == 14 && "bubbles-rising"@[0] == 'b');
    reveal_strlit("fish-swim");
    assert("fish-swim"@.len() == 9 && "fish-swim"@[0] == 'f');
    reveal_strlit("wave-crest");
    assert("wave-crest"@.len() == 10 && "wave-crest"@[0] == 'w');
    reveal_strlit("sonar-ping");
    assert("sonar-ping"@.len() == 10 && "sonar-ping"@[0] == 's');
    reveal_strlit("depth-gauge");
    assert("depth-gauge"@.len() == 11 && "depth-gauge"@[0] == 'd');
    reveal_strlit("jellyfish-pulse");
    assert("jellyfish-pulse"@.len() == 15 && "jellyfish-pulse"@[0] == 'j');
    reveal_strlit("coral-reef");
    assert("coral-reef"@.len() == 10 && "coral-reef"@[0] == 'c');
    reveal_strlit("seaweed");
    assert("seaweed"@.len() == 7 && "seaweed"@[0] == 's');
    reveal_strlit("ripple-interference");
    assert("ripple-interference"@.len() == 19 && "ripple-interference"@[0] == 'r');
}

/// Name of style `k` of the `penrose` theme, in catalogue order.
pub open spec fn penrose_name(k: int) -> Seq<char> {
    if k == 0 {
        PenroseP3.style_name()
    } else if k == 1 {
        PenroseP2.style_name()
    } else if k == 2 {
        SunPattern.style_name()
    } else if k == 3 {
        GirihTiles.style_name()
    } else if k == 4 {
        AmmannBars.style_name()
    } else if k == 5 {
        DeBruijnPentagrid.style_name()
    } else if k == 6 {
        DecagonFractal.style_name()
    } else if k == 7 {
        QuasicrystalDiffraction.style_name()
    } else if k == 8 {
        PinwheelTiling.style_name()
    } else {
        TruchetQuasi.style_name()
    }
}

/// Every `penrose` style has its own name.
pub proof fn lemma_penrose_names_distinct()
    ensures
        forall|i: int, j: int| 0 <= i < j < 10 ==> #[trigger] penrose_name(i) != #[trigger] penrose_name(j),
{
    reveal_strlit("penrose-p3");
    assert("penrose-p3"@.len() == 10 && "penrose-p3"@[0] == 'p' && "penrose-p3"@[1] == 'e' && "penrose-p3"@[2] == 'n' && "penrose-p3"@[3] == 'r' && "penrose-p3"@[4] == 'o' && "penrose-p3"@[5] == 's' && "penrose-p3"@[6] == 'e' && "penrose-p3"@[7] == '-' && "penrose-p3"@[8] == 'p' && "penrose-p3"@[9] == '3');
    reveal_strlit("penrose-p2");
    assert("penrose-p2"@.len() == 10 && "penrose-p2"@[0] == 'p' && "penrose-p2"@[1] == 'e' && "penrose-p2"@[2] == 'n' && "penrose-p2"@[3] == 'r' && "penrose-p2"@[4] == 'o' && "penrose-p2"@[5] == 's' && "penrose-p2"@[6] == 'e' && "penrose-p2"@[7] == '-' && "penrose-p2"@[8] == 'p' && "penrose-p2"@[9] == '2');
    reveal_strlit("sun-pattern");
    assert("sun-pattern"@.len() == 11 && "sun-pattern"@[0] == 's' && "sun-pattern"@[1] == 'u' && "sun-pattern"@[2] == 'n' && "sun-pattern"@[3] == '-' && "sun-pattern"@[4] == 'p' && "sun-pattern"@[5] == 'a' && "sun-pattern"@[6] == 't' && "sun-pattern"@[7] == 't' && "sun-pattern"@[8] == 'e' && "sun-pattern"@[9] == 'r');
    reveal_strlit("girih-tiles");
    assert("girih-tiles"@.len() == 11 && "girih-tiles"@[0] == 'g' && "girih-tiles"@[1] == 'i' && "girih-tiles"@[2] == 'r' && "girih-tiles"@[3] == 'i' && "girih-tiles"@[4] == 'h' && "girih-tiles"@[5] == '-' && "girih-tiles"@[6] == 't' && "girih-tiles"@[7] == 'i' && "girih-tiles"@[8] == 'l' && "girih-tiles"@[9] == 'e');
    reveal_strlit("ammann-bars");
    assert("ammann-bars"@.len() == 11 && "ammann-bars"@[0] == 'a' && "ammann-bars"@[1] == 'm' && "ammann-bars"@[2] == 'm' && "ammann-bars"@[3] == 'a' && "ammann-bars"@[4] == 'n' && "ammann-bars"@[5] == 'n' && "ammann-bars"@[6] == '-' && "ammann-bars"@[7] == 'b' && "ammann-bars"@[8] == 'a' && "ammann-bars"@[9] == 'r');
    reveal_strlit("debruijn-pentagrid");
    assert("debruijn-pentagrid"@.len() == 18 && "debruijn-pentagrid"@[0] == 'd' && "debruijn-pentagrid"@[1] == 'e' && "debruijn-pentagrid"@[2] == 'b' && "debruijn-pentagrid"@[3] == 'r' && "debruijn-pentagrid"@[4] == 'u' && "debruijn-pentagrid"@[5] == 'i' && "debruijn-pentagrid"@[6] == 'j' && "debruijn-pentagrid"@[7] == 'n' && "debruijn-pentagrid"@[8] == '-' && "debruijn-pentagrid"@[9] == 'p');
    reveal_strlit("decagon-fractal");
    assert("decagon-fractal"@.len() == 15 && "decagon-fractal"@[0] == 'd' && "decagon-fractal"@[1] == 'e' && "decagon-fractal"@[2] == 'c' && "decagon-fractal"@[3] == 'a' && "decagon-fractal"@[4] == 'g' && "decagon-fractal"@[5] == 'o' && "decagon-fractal"@[6] == 'n' && "decagon-fractal"@[7] == '-' && "decagon-fractal"@[8] == 'f' && "decagon-fractal"@[9] == 'r');
    reveal_strlit("quasicrystal-diffraction");
    assert("quasicrystal-diffraction"@.len() == 24 && "quasicrystal-diffraction"@[0] == 'q' && "quasicrystal-diffraction"@[1] == 'u' && "quasicrystal-diffraction"@[2] == 'a' && "quasicrystal-diffraction"@[3] == 's' && "quasicrystal-diffraction"@[4] == 'i' && "quasicrystal-diffraction"@[5] == 'c' && "quasicrystal-diffraction"@[6] == 'r' && "quasicrystal-diffraction"@[7] == 'y' && "quasicrystal-diffraction"@[8] == 's' && "quasicrystal-diffraction"@[9] == 't');
    reveal_strlit("pinwheel-tiling");
    assert("pinwheel-tiling"@.len() == 15 && "pinwheel-tiling"@[0] == 'p' && "pinwheel-tiling"@[1] == 'i' && "pinwheel-tiling"@[2] == 'n' && "pinwheel-tiling"@[3] == 'w' && "pinwheel-tiling"@[4] == 'h' && "pinwheel-tiling"@[5] == 'e' && "pinwheel-tiling"@[6] == 'e' && "pinwheel-tiling"@[7] == 'l' && "pinwheel-tiling"@[8] == '-' && "pinwheel-tiling"@[9] == 't');
    reveal_strlit("truchet-quasi");
    assert("truchet-quasi"@.len() == 13 && "truchet-quasi"@[0] == 't' && "truchet-quasi"@[1] == 'r' && "truchet-quasi"@[2] == 'u' && "truchet-quasi"@[3] == 'c' && "truchet-quasi"@[4] == 'h' && "truchet-quasi"@[5] == 'e' && "truchet-quasi"@[6] == 't' && "truchet-quasi"@[7] == '-' && "truchet-quasi"@[8] == 'q' && "truchet-quasi"@[9] == 'u');
}

/// Name of style `k` of the `plants` theme, in catalogue order.
pub open spec fn plants_name(k: int) -> Seq<char> {
    if k == 0 {
        Seedling.style_name()
    } else if k == 1 {
        FernFiddlehead.style_name()
    } else if k == 2 {
        BambooShoot.style_name()
    } else if k == 3 {
        IvyTrellis.style_name()
    } else if k == 4 {
        CactusArms.style_name()
    } else if k == 5 {
        SunflowerSeeds.style_name()
    } else if k == 6 {
        MushroomCap.style_name()
    } else if k == 7 {
        Succulent.style_name()
    } else if k == 8 {
        RootSystem.style_name()
    } else {
        Bonsai.style_name()
    }
}

/// Every `plants` style has its own name.
pub proof fn lemma_plants_names_distinct()
    ensures
        forall|i: int, j: int| 0 <= i < j < 10 ==> #[trigger] plants_name(i) != #[trigger] plants_name(j),
{
    reveal_strlit("seedling");
    assert("seedling"@.len() == 8 && "seedling"@[0] == 's');
    reveal_strlit("fern-fiddlehead");
    assert("fern-fiddlehead"@.len() == 15 && "fern-fiddlehead"@[0] == 'f');
    reveal_strlit("bamboo-shoot");
    assert("bamboo-shoot"@.len() == 12 && "bamboo-shoot"@[0] == 'b');
    reveal_strlit("ivy-trellis");
    assert("ivy-trellis"@.len() == 11 && "ivy-trellis"@[0] == 'i');
    reveal_strlit("cactus-arms");
    assert("cactus-arms"@.len() == 11 && "cactus-arms"@[0] == 'c');
    reveal_strlit("sunflower-seeds");
    assert("sunflower-seeds"@.len() == 15 && "sunflower-seeds"@[0] == 's');
    reveal_strlit("mushroom-cap");
    assert("mushroom-cap"@.len() == 12 && "mushroom-cap"@[0] == 'm');
    reveal_strlit("succulent-rosette");
    assert("succulent-rosette"@.len() == 17 && "succulent-rosette"@[0] == 's');
    reveal_strlit("root-system");
    assert("root-system"@.len() == 11 && "root-system"@[0] == 'r');
    reveal_strlit("bonsai");
    assert("bonsai"@.len() == 6 && "bonsai"@[0] == 'b');
}

/// Name of style `k` of the `platonic` theme, in catalogue order.
pub open spec fn platonic_name(k: int) -> Seq<char> {
    if k == 0 {
        Tetrahedron.style_name()
    } else if k == 1 {
        Cube.style_name()
    } else if k == 2 {
        Octahedron.style_name()
    } else if k == 3 {
        Dodecahedron.style_name()
    } else if k == 4 {
        Icosahedron.style_name()
    } else if k == 5 {
        Merkaba.style_name()
    } else if k == 6 {
        StarOctangulum.style_name()
    } else if k == 7 {
        Cuboctahedron.style_name()
    } else if k == 8 {
        NestedSolids.style_name()
    } else if k == 9 {
        StellatedDodecahedron.style_name()
    } else {
        UnfoldingNet.style_name()
    }
}

/// Every `platonic` style has its own name.
pub proof fn lemma_platonic_names_distinct()
    ensures
        forall|i: int, j: int| 0 <= i < j < 11 ==> #[trigger] platonic_name(i) != #[trigger] platonic_name(j),
{
    reveal_strlit("tetrahedron");
    assert("tetrahedron"@.len() == 11 && "tetrahedron"@[0] == 't');
    reveal_strlit("cube");
    assert("cube"@.len() == 4 && "cube"@[0] == 'c');
    reveal_strlit("octahedron");
    assert("octahedron"@.len() == 10 && "octahedron"@[0] == 'o');
    reveal_strlit("dodecahedron");
    assert("dodecahedron"@.len() == 12 && "dodecahedron"@[0] == 'd');
    reveal_strlit("icosahedron");
    assert("icosahedron"@.len() == 11 && "icosahedron"@[0] == 'i');
    reveal_strlit("merkaba");
    assert("merkaba"@.len() == 7 && "merkaba"@[0] == 'm');
    reveal_strlit("star-octangulum");
    assert("star-octangulum"@.len() == 15 && "star-octangulum"@[0] == 's');
    reveal_strlit("cuboctahedron");
    assert("cuboctahedron"@.len() == 13 && "cuboctahedron"@[0] == 'c');
    reveal_strlit("nested-solids");
    assert("nested-solids"@.len() == 13 && "nested-solids"@[0] == 'n');
    reveal_strlit("stellated-dodecahedron");
    assert("stellated-dodecahedron"@.len() == 22 && "stellated-dodecahedron"@[0] == 's');
    reveal_strlit("unfolding-net");
    assert("unfolding-net"@.len() == 13 && "unfolding-net"@[0] == 'u');
}

} // verus!
