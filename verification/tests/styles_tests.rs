use dotmax::progress::easing::Easing;
use dotmax::progress::styles::music::{BeatPulse, MusicalStaff};
use dotmax::progress::styles::noise::{hash2_permille, hash3_permille, ValueNoiseFill};
use dotmax::progress::styles::numbertheory::Sieve;
use dotmax::progress::{Palette, ProgressStyle, Tinted};
use dotmax::Color;

#[test]
fn style_metadata() {
    assert_eq!(MusicalStaff.name(), "musical-staff");
    assert_eq!(MusicalStaff.theme(), "music");
    assert_eq!(BeatPulse.name(), "beat-pulse");
    assert_eq!(Sieve.name(), "sieve-eratosthenes");
    assert_eq!(Sieve.theme(), "numbertheory");
    assert!(ValueNoiseFill.describe().starts_with("Bilinear value noise lattice"));
    assert!(ValueNoiseFill.describe().contains("filled dots"));
}

#[test]
fn tinted_presents_as_inner_style() {
    let t = Tinted(MusicalStaff);
    assert_eq!(t.name(), "musical-staff");
    assert_eq!(t.theme(), "music");
    assert_eq!(t.describe(), MusicalStaff.describe());
}

#[test]
fn default_palette() {
    let p = Palette::default();
    assert_eq!(p.start, Color::rgb(0, 200, 255));
    assert_eq!(p.end, Color::rgb(120, 80, 255));
    assert_eq!(p.track, Color::rgb(40, 40, 50));
}

#[test]
fn easing_is_copy_and_comparable() {
    let e = Easing::CubicInOut;
    let f = e;
    assert_eq!(e, f);
    assert_ne!(e, Easing::Linear);
}

#[test]
fn lattice_hash_values() {
    assert_eq!(hash2_permille(0, 0), 0);
    assert_eq!(hash2_permille(1, 2), 159);
    assert_eq!(hash2_permille(-5, 7), 776);
    assert_eq!(hash2_permille(123, -456), 340);
    assert_eq!(hash3_permille(1, 2, 3), 852);
    assert_eq!(hash3_permille(4, 5, 0), hash2_permille(4, 5));
}

#[test]
fn music_names_are_unique_kebab_case() {
    let names = [
        dotmax::progress::styles::music::MusicalStaff.name(),
        dotmax::progress::styles::music::PianoKeyboard.name(),
        dotmax::progress::styles::music::Metronome.name(),
        dotmax::progress::styles::music::VinylRecord.name(),
        dotmax::progress::styles::music::DrumKit.name(),
        dotmax::progress::styles::music::SoundWaveform.name(),
        dotmax::progress::styles::music::CassetteReels.name(),
        dotmax::progress::styles::music::ConductorBaton.name(),
        dotmax::progress::styles::music::SheetScroll.name(),
        dotmax::progress::styles::music::TuningFork.name(),
        dotmax::progress::styles::music::VolumeKnob.name(),
        dotmax::progress::styles::music::BeatPulse.name(),
    ];
    for (i, a) in names.iter().enumerate() {
        assert!(a.chars().all(|c| c.is_ascii_lowercase() || c.is_ascii_digit() || c == '-'));
        for b in &names[i + 1..] {
            assert_ne!(a, b);
        }
    }
}

#[test]
fn nature_names_are_unique_kebab_case() {
    let names = [
        dotmax::progress::styles::nature::GrowingVine.name(),
        dotmax::progress::styles::nature::GrassBlade.name(),
        dotmax::progress::styles::nature::Sunrise.name(),
        dotmax::progress::styles::nature::RainGauge.name(),
        dotmax::progress::styles::nature::TreeRings.name(),
        dotmax::progress::styles::nature::MountainSnow.name(),
        dotmax::progress::styles::nature::FourSeasons.name(),
        dotmax::progress::styles::nature::FlowerBloom.name(),
        dotmax::progress::styles::nature::FallingLeaves.name(),
        dotmax::progress::styles::nature::LightningBolt.name(),
    ];
    for (i, a) in names.iter().enumerate() {
        assert!(a.chars().all(|c| c.is_ascii_lowercase() || c.is_ascii_digit() || c == '-'));
        for b in &names[i + 1..] {
            assert_ne!(a, b);
        }
    }
}

#[test]
fn nintendo_names_are_unique_kebab_case() {
    let names = [
        dotmax::progress::styles::nintendo::MarioRun.name(),
        dotmax::progress::styles::nintendo::ZeldaHearts.name(),
        dotmax::progress::styles::nintendo::MetroidETanks.name(),
        dotmax::progress::styles::nintendo::TetrisWell.name(),
        dotmax::progress::styles::nintendo::DuckHunt.name(),
        dotmax::progress::styles::nintendo::Excitebike.name(),
        dotmax::progress::styles::nintendo::PunchOutStars.name(),
        dotmax::progress::styles::nintendo::ContraSpread.name(),
        dotmax::progress::styles::nintendo::MegaManWeapon.name(),
        dotmax::progress::styles::nintendo::IceClimberUp.name(),
        dotmax::progress::styles::nintendo::DonkeyBarrel.name(),
    ];
    for (i, a) in names.iter().enumerate() {
        assert!(a.chars().all(|c| c.is_ascii_lowercase() || c.is_ascii_digit() || c == '-'));
        for b in &names[i + 1..] {
            assert_ne!(a, b);
        }
    }
}

#[test]
fn noise_names_are_unique_kebab_case() {
    let names = [
        dotmax::progress::styles::noise::ValueNoiseFill.name(),
        dotmax::progress::styles::noise::FbmContour.name(),
        dotmax::progress::styles::noise::GradientNoiseFill.name(),
        dotmax::progress::styles::noise::DomainWarp.name(),
        dotmax::progress::styles::noise::FlowField.name(),
        dotmax::progress::styles::noise::WorleyCell.name(),
        dotmax::progress::styles::noise::VoronoiDiagram.name(),
        dotmax::progress::styles::noise::DlaGrowth.name(),
        dotmax::progress::styles::noise::BrownianTrail.name(),
        dotmax::progress::styles::noise::CurlNoise.name(),
        dotmax::progress::styles::noise::TopoContour.name(),
        dotmax::progress::styles::noise::Plasma.name(),
    ];
    for (i, a) in names.iter().enumerate() {
        assert!(a.chars().all(|c| c.is_ascii_lowercase() || c.is_ascii_digit() || c == '-'));
        for b in &names[i + 1..] {
            assert_ne!(a, b);
        }
    }
}

#[test]
fn numbertheory_names_are_unique_kebab_case() {
    let names = [
        dotmax::progress::styles::numbertheory::Sieve.name(),
        dotmax::progress::styles::numbertheory::UlamSpiral.name(),
        dotmax::progress::styles::numbertheory::PrimeCounting.name(),
        dotmax::progress::styles::numbertheory::Collatz.name(),
        dotmax::progress::styles::numbertheory::FibonacciSpiral.name(),
        dotmax::progress::styles::numbertheory::PascalMod.name(),
        dotmax::progress::styles::numbertheory::TotientHistogram.name(),
        dotmax::progress::styles::numbertheory::SternBrocot.name(),
        dotmax::progress::styles::numbertheory::ContinuedFraction.name(),
        dotmax::progress::styles::numbertheory::ModularCircle.name(),
        dotmax::progress::styles::numbertheory::Recaman.name(),
        dotmax::progress::styles::numbertheory::DigitalRoot.name(),
    ];
    for (i, a) in names.iter().enumerate() {
        assert!(a.chars().all(|c| c.is_ascii_lowercase() || c.is_ascii_digit() || c == '-'));
        for b in &names[i + 1..] {
            assert_ne!(a, b);
        }
    }
}

#[test]
fn ocean_names_are_unique_kebab_case() {
    let names = [
        dotmax::progress::styles::ocean::RisingTide.name(),
        dotmax::progress::styles::ocean::BubblesRising.name(),
        dotmax::progress::styles::ocean::FishSwim.name(),
        dotmax::progress::styles::ocean::WaveCrest.name(),
        dotmax::progress::styles::ocean::SonarPing.name(),
        dotmax::progress::styles::ocean::DepthGauge.name(),
        dotmax::progress::styles::ocean::JellyfishPulse.name(),
        dotmax::progress::styles::ocean::CoralReef.name(),
        dotmax::progress::styles::ocean::Seaweed.name(),
        dotmax::progress::styles::ocean::RippleInterference.name(),
    ];
    for (i, a) in names.iter().enumerate() {
        assert!(a.chars().all(|c| c.is_ascii_lowercase() || c.is_ascii_digit() || c == '-'));
        for b in &names[i + 1..] {
            assert_ne!(a, b);
        }
    }
}

#[test]
fn penrose_names_are_unique_kebab_case() {
    let names = [
        dotmax::progress::styles::penrose::PenroseP3.name(),
        dotmax::progress::styles::penrose::PenroseP2.name(),
        dotmax::progress::styles::penrose::SunPattern.name(),
        dotmax::progress::styles::penrose::GirihTiles.name(),
        dotmax::progress::styles::penrose::AmmannBars.name(),
        dotmax::progress::styles::penrose::DeBruijnPentagrid.name(),
        dotmax::progress::styles::penrose::DecagonFractal.name(),
        dotmax::progress::styles::penrose::QuasicrystalDiffraction.name(),
        dotmax::progress::styles::penrose::PinwheelTiling.name(),
        dotmax::progress::styles::penrose::TruchetQuasi.name(),
    ];
    for (i, a) in names.iter().enumerate() {
        assert!(a.chars().all(|c| c.is_ascii_lowercase() || c.is_ascii_digit() || c == '-'));
        for b in &names[i + 1..] {
            assert_ne!(a, b);
        }
    }
}

#[test]
fn plants_names_are_unique_kebab_case() {
    let names = [
        dotmax::progress::styles::plants::Seedling.name(),
        dotmax::progress::styles::plants::FernFiddlehead.name(),
        dotmax::progress::styles::plants::BambooShoot.name(),
        dotmax::progress::styles::plants::IvyTrellis.name(),
        dotmax::progress::styles::plants::CactusArms.name(),
        dotmax::progress::styles::plants::SunflowerSeeds.name(),
        dotmax::progress::styles::plants::MushroomCap.name(),
        dotmax::progress::styles::plants::Succulent.name(),
        dotmax::progress::styles::plants::RootSystem.name(),
        dotmax::progress::styles::plants::Bonsai.name(),
    ];
    for (i, a) in names.iter().enumerate() {
        assert!(a.chars().all(|c| c.is_ascii_lowercase() || c.is_ascii_digit() || c == '-'));
        for b in &names[i + 1..] {
            assert_ne!(a, b);
        }
    }
}

#[test]
fn platonic_names_are_unique_kebab_case() {
    let names = [
        dotmax::progress::styles::platonic::Tetrahedron.name(),
        dotmax::progress::styles::platonic::Cube.name(),
        dotmax::progress::styles::platonic::Octahedron.name(),
        dotmax::progress::styles::platonic::Dodecahedron.name(),
        dotmax::progress::styles::platonic::Icosahedron.name(),
        dotmax::progress::styles::platonic::Merkaba.name(),
        dotmax::progress::styles::platonic::StarOctangulum.name(),
        dotmax::progress::styles::platonic::Cuboctahedron.name(),
        dotmax::progress::styles::platonic::NestedSolids.name(),
        dotmax::progress::styles::platonic::StellatedDodecahedron.name(),
        dotmax::progress::styles::platonic::UnfoldingNet.name(),
    ];
    for (i, a) in names.iter().enumerate() {
        assert!(a.chars().all(|c| c.is_ascii_lowercase() || c.is_ascii_digit() || c == '-'));
        for b in &names[i + 1..] {
            assert_ne!(a, b);
        }
    }
}
