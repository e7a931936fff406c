use dotmax::progress::styles::nature::{MountainSnow, RainGauge};
use dotmax::progress::styles::ocean::DepthGauge;
use dotmax::progress::styles::noise::BrownianTrail;
use dotmax::progress::styles::plants::{Arm, BambooShoot, CactusArms};
use dotmax::progress::styles::music::{MusicalStaff, PianoKeyboard, SheetScroll};
use dotmax::progress::styles::nintendo::{
    DonkeyBarrel, Excitebike, IceClimberUp, MarioRun, MegaManWeapon, MetroidETanks, PunchOutStars, TetrisWell,
    ZeldaHearts,
};
use dotmax::progress::styles::numbertheory::{Collatz, PascalMod, PrimeCounting, Sieve, TotientHistogram, UlamSpiral};
use dotmax::{BrailleGrid, Color};

fn rows(grid: &BrailleGrid) -> Vec<String> {
    let (w, h) = grid.dimensions();
    (0..h).map(|y| (0..w).map(|x| grid.get_char(x, y)).collect()).collect()
}

fn assert_rows(grid: &BrailleGrid, expected: &[&str]) {
    let got = rows(grid);
    let want: Vec<String> = expected.iter().map(|s| s.to_string()).collect();
    assert_eq!(got, want);
}

#[test]
fn sieve_frame_all_revealed() {
    let mut g = BrailleGrid::new(10, 2).unwrap();
    Sieve.draw(&mut g, 20, 20);
    assert_rows(&g, &["⢸⡇⡇⡇⠀⡇⡇⠀⡇⡇", "⣼⣧⣧⣧⣤⣧⣧⣤⣧⣧"]);
}

#[test]
fn sieve_frame_partly_revealed() {
    let mut g = BrailleGrid::new(10, 2).unwrap();
    Sieve.draw(&mut g, 20, 9);
    assert_rows(&g, &["⢸⡇⡇⡇⠀⠀⠀⠀⠀⠀", "⣼⣧⣧⣧⡄⠀⠀⠀⠀⠀"]);
}

#[test]
fn sieve_frame_nothing_revealed() {
    let mut g = BrailleGrid::new(10, 2).unwrap();
    Sieve.draw(&mut g, 20, 0);
    assert_rows(&g, &["⠀⠀⠀⠀⠀⠀⠀⠀⠀⠀", "⠀⠀⠀⠀⠀⠀⠀⠀⠀⠀"]);
}

#[test]
fn ulam_frame_primes_on_the_spiral() {
    let mut g = BrailleGrid::new(6, 3).unwrap();
    UlamSpiral.draw(&mut g, 48);
    assert_rows(&g, &["⠀⢀⠀⠀⢀⠀", "⠀⢀⢕⠰⠕⠀", "⠀⠐⠀⠑⠀⠀"]);
}

#[test]
fn ulam_frame_first_prime_is_right_of_centre() {
    // 1 sits at the centre (12, 6) and is not prime; 2 sits one dot right.
    let mut g = BrailleGrid::new(12, 3).unwrap();
    UlamSpiral.draw(&mut g, 2);
    let lit: Vec<(usize, usize)> = (0..12)
        .flat_map(|y| (0..24).map(move |x| (x, y)))
        .filter(|&(x, y)| {
            let c = g.get_char(x / 2, y / 4) as u32 - 0x2800;
            let bit = [[0x01, 0x02, 0x04, 0x40], [0x08, 0x10, 0x20, 0x80]][x % 2][y % 4];
            c & bit != 0
        })
        .collect();
    assert_eq!(lit, vec![(13, 6)]);
}

#[test]
fn prime_counting_frame_with_scan_line() {
    let mut g = BrailleGrid::new(8, 2).unwrap();
    PrimeCounting.draw(&mut g, 16, 16, 3);
    assert_rows(&g, &["⠀⢸⠀⣀⣀⣤⣿⣿", "⣀⣼⣿⣿⣿⣿⣿⣿"]);
}

#[test]
fn prime_counting_frame_scan_off_the_bar() {
    let mut g = BrailleGrid::new(8, 2).unwrap();
    PrimeCounting.draw(&mut g, 16, 7, 99);
    assert_rows(&g, &["⠀⠀⠀⡀⠀⠀⠀⠀", "⣀⣤⣿⡇⠀⠀⠀⠀"]);
}

#[test]
fn pascal_frame_mod_two() {
    let mut g = BrailleGrid::new(8, 2).unwrap();
    PascalMod.draw(&mut g, 2, 8);
    assert_rows(&g, &["⡆⠀⢀⠀⠁⡀⠀⢰", "⡇⡐⡠⡀⡀⡄⡂⢸"]);
}

#[test]
fn pascal_frame_mod_three() {
    let mut g = BrailleGrid::new(8, 2).unwrap();
    PascalMod.draw(&mut g, 3, 8);
    assert_rows(&g, &["⡆⠀⠀⠠⠁⠀⠀⢰", "⡇⡘⠀⡢⡐⠈⡂⢸"]);
}

#[test]
fn zelda_hearts_half_filled() {
    let mut g = BrailleGrid::new(12, 2).unwrap();
    ZeldaHearts.draw(&mut g, 3);
    assert_rows(&g, &["⠀⠀⠀⠀⠀⠀⠀⠀⠀⠀⠀⠀", "⠺⣶⠗⠀⠺⣆⠕⠀⠪⣀⠕⠀"]);
}

#[test]
fn zelda_hearts_all_full() {
    let mut g = BrailleGrid::new(12, 2).unwrap();
    ZeldaHearts.draw(&mut g, 100);
    assert_rows(&g, &["⠀⠀⠀⠀⠀⠀⠀⠀⠀⠀⠀⠀", "⠺⣶⠗⠀⠺⣶⠗⠀⠺⣶⠗⠀"]);
}

#[test]
fn tetris_well_with_i_piece() {
    let mut g = BrailleGrid::new(6, 3).unwrap();
    TetrisWell.draw(&mut g, 5, Some(0));
    assert_rows(&g, &["⡇⠀⠀⠀⠀⢸", "⣧⠶⡶⢤⠤⣼", "⣿⣿⣿⣿⣿⣿"]);
}

#[test]
fn tetris_well_with_s_piece() {
    let mut g = BrailleGrid::new(6, 3).unwrap();
    TetrisWell.draw(&mut g, 5, Some(2));
    assert_rows(&g, &["⡇⠀⠀⠀⠀⢸", "⣧⠽⡷⢤⠤⣼", "⣿⣿⣿⣿⣿⣿"]);
}

#[test]
fn tetris_well_piece_hidden() {
    let mut g = BrailleGrid::new(6, 3).unwrap();
    TetrisWell.draw(&mut g, 9, None);
    assert_rows(&g, &["⣧⠤⡤⢤⠤⣼", "⣿⠿⡿⢿⠿⣿", "⣿⣿⣿⣿⣿⣿"]);
}

#[test]
fn tetris_well_full_stack_has_no_piece() {
    let mut g = BrailleGrid::new(6, 3).unwrap();
    TetrisWell.draw(&mut g, 100, Some(3));
    assert_rows(&g, &["⣿⠿⡿⢿⠿⣿", "⣿⠿⡿⢿⠿⣿", "⣿⣿⣿⣿⣿⣿"]);
}

#[test]
fn tetris_well_too_narrow_for_an_inside() {
    let mut g = BrailleGrid::new(1, 2).unwrap();
    TetrisWell.draw(&mut g, 3, Some(1));
    assert_rows(&g, &["⣿", "⣿"]);
}

#[test]
fn sheet_scroll_frame() {
    let mut g = BrailleGrid::new(12, 3).unwrap();
    SheetScroll.draw(&mut g, 5, 7);
    assert_rows(&g, &["⠤⣧⠤⣼⠤⢼⠤⠤⠤⡧⠤⠧", "⠭⠽⠭⢿⠭⣿⠭⣽⠭⠭⠭⠭", "⠭⠭⠭⢽⠭⢽⠭⠯⠭⠭⠭⠭"]);
}

#[test]
fn sheet_scroll_short_bar_cursor_clamped() {
    let mut g = BrailleGrid::new(12, 1).unwrap();
    SheetScroll.draw(&mut g, 40, 100);
    assert_rows(&g, &["⣶⣶⣶⣶⣷⣾⣷⣾⣷⣾⣷⣾"]);
}

#[test]
fn energy_tanks_full_and_charging() {
    let mut g = BrailleGrid::new(12, 2).unwrap();
    MetroidETanks.draw(&mut g, 1, Some(3));
    assert_rows(&g, &["⣿⣿⢸⠉⡇⡏⢹⢸⠉⡇⠀⠀", "⣿⣿⢸⣿⡇⣇⣸⢸⣀⡇⠀⠀"]);
}

#[test]
fn energy_tanks_empty() {
    let mut g = BrailleGrid::new(12, 2).unwrap();
    MetroidETanks.draw(&mut g, 0, None);
    assert_rows(&g, &["⡏⢹⢸⠉⡇⡏⢹⢸⠉⡇⠀⠀", "⣇⣸⢸⣀⡇⣇⣸⢸⣀⡇⠀⠀"]);
}

#[test]
fn energy_tanks_all_full() {
    let mut g = BrailleGrid::new(12, 2).unwrap();
    MetroidETanks.draw(&mut g, 5, Some(0));
    assert_rows(&g, &["⣿⣿⢸⣿⡇⣿⣿⢸⣿⡇⠀⠀", "⣿⣿⢸⣿⡇⣿⣿⢸⣿⡇⠀⠀"]);
}

#[test]
fn ice_tower_scrolled() {
    let mut g = BrailleGrid::new(8, 3).unwrap();
    IceClimberUp.draw(&mut g, 7, 4, 1);
    assert_rows(&g, &["⠀⠀⠖⠒⠒⠒⠒⠲", "⣋⣉⣉⣉⣻⣙⣀⣀", "⠁⠀⡥⠤⠤⠬⠤⢬"]);
}

#[test]
fn ice_tower_climber_at_the_bottom() {
    let mut g = BrailleGrid::new(8, 3).unwrap();
    IceClimberUp.draw(&mut g, 0, 9, 0);
    assert_rows(&g, &["⠋⠉⣋⣉⣉⣙⣉⣙", "⡤⠤⠥⠤⠤⢤⠀⠈", "⠀⠀⠖⠒⡶⠒⠒⠲"]);
}

#[test]
fn weapon_meter_with_partial_segment() {
    let mut g = BrailleGrid::new(4, 3).unwrap();
    let c = Color::rgb(9, 8, 7);
    MegaManWeapon.draw(&mut g, 1, Some(5), c);
    assert_rows(&g, &["░░  ", "▅▅  ", "██  "]);
    assert_eq!(g.get_color(0, 2), Some(c));
    assert_eq!(g.get_color(1, 2), Some(c));
    assert_eq!(g.get_color(2, 2), None);
    assert_eq!(g.get_color(0, 1), None);
}

#[test]
fn weapon_meter_one_column() {
    let mut g = BrailleGrid::new(1, 4).unwrap();
    MegaManWeapon.draw(&mut g, 2, None, Color::rgb(1, 1, 1));
    assert_rows(&g, &["░", "░", "█", "█"]);
    assert_eq!(g.get_color(0, 3), Some(Color::rgb(1, 1, 1)));
    assert_eq!(g.get_color(0, 1), None);
}

#[test]
fn piano_frame_marks_filled_keys() {
    let mut g = BrailleGrid::new(9, 2).unwrap();
    let c = Color::rgb(3, 4, 5);
    PianoKeyboard.draw(&mut g, 3, 1, c);
    assert_rows(&g, &["⠀⣿⣿⡇⣿⣿⣿⡇⣿", "⣤⠀⠀⡇⠀⠀⠀⡇⠀"]);
    for x in 0..9 {
        let want = if x <= 2 { Some(c) } else { None };
        assert_eq!(g.get_color(x, 0), want);
        assert_eq!(g.get_color(x, 1), want);
    }
}

#[test]
fn piano_frame_presses_the_sounding_key() {
    let mut g = BrailleGrid::new(9, 2).unwrap();
    let c = Color::rgb(3, 4, 5);
    PianoKeyboard.draw(&mut g, 0, 3, c);
    assert_rows(&g, &["⡇⣿⣿⣿⣿⣿⣿⡇⣿", "⡇⠀⠀⣿⠀⠀⠀⡇⠀"]);
    assert_eq!(g.get_color(0, 1), Some(c));
    assert_eq!(g.get_color(1, 1), None);
}

#[test]
fn musical_staff_frame() {
    let mut g = BrailleGrid::new(8, 2).unwrap();
    assert_eq!(MusicalStaff.staff_rows(&g), vec![1, 2, 3, 4, 5]);
    MusicalStaff.draw(&mut g, 4, 5, 1);
    assert_rows(&g, &["⣶♪♫♩⣶⣶⣶⣶", "𝄞⠛⠛⠛♪⠛⠛⠛"]);
}

#[test]
fn musical_staff_short_bar_stacks_its_lines() {
    let mut g = BrailleGrid::new(8, 1).unwrap();
    assert_eq!(MusicalStaff.staff_rows(&g), vec![0, 0, 0, 0]);
    MusicalStaff.draw(&mut g, 20, 100, 9);
    assert_rows(&g, &["𝄞♪♫♩♪♫♪♫"]);
}

#[test]
fn musical_staff_one_column_has_only_the_clef() {
    let mut g = BrailleGrid::new(1, 2).unwrap();
    MusicalStaff.draw(&mut g, 3, 0, 0);
    assert_rows(&g, &["⣶", "𝄞"]);
}

#[test]
fn mario_running_with_coins() {
    let mut g = BrailleGrid::new(10, 2).unwrap();
    MarioRun.draw(&mut g, 13, false, 4, 3, 3);
    assert_rows(&g, &["⠀⠀⠀⠀⠀⠀⢀⡀⠀⠀", "⣂⣀⣂⣀⣂⣀⣸⣇⣀⣀"]);
}

#[test]
fn mario_reaches_the_flagpole() {
    let mut g = BrailleGrid::new(10, 2).unwrap();
    MarioRun.draw(&mut g, 16, true, 4, 0, 4);
    assert_rows(&g, &["⠀⠀⠀⠀⠀⠀⠀⠀⠀⡟", "⣂⣀⣂⣀⣂⣀⣂⣀⣀⣇"]);
}

#[test]
fn mario_at_the_start() {
    let mut g = BrailleGrid::new(6, 1).unwrap();
    MarioRun.draw(&mut g, 0, false, 0, 1, 0);
    assert_rows(&g, &["⣤⣀⣀⣀⣀⣀"]);
}

#[test]
fn mountain_with_snow_caps() {
    let mut g = BrailleGrid::new(8, 2).unwrap();
    let heights = vec![0, 1, 2, 3, 4, 5, 6, 7, 7, 6, 5, 4, 3, 2, 1, 0];
    let snow = vec![0, 0, 1, 1, 2, 2, 3, 3, 3, 3, 2, 2, 1, 1, 0, 9];
    MountainSnow.draw(&mut g, &heights, &snow);
    assert_rows(&g, &["⠀⠀⣠⣾⣷⣄⠀⠀", "⢠⠾⡛⢍⠪⡙⢷⠄"]);
}

#[test]
fn mountain_taller_than_the_bar() {
    let mut g = BrailleGrid::new(2, 1).unwrap();
    MountainSnow.draw(&mut g, &vec![9, 20, 0, 3], &vec![100, 0, 5, 1]);
    assert_rows(&g, &["⡟⢘"]);
}

#[test]
fn cactus_fully_grown() {
    let mut g = BrailleGrid::new(8, 4).unwrap();
    let left = Some(Arm { reach: 4, rise: 3 });
    let right = Some(Arm { reach: 3, rise: 2 });
    CactusArms.draw(&mut g, 12, true, left, right, true);
    assert_rows(&g, &["⠀⠀⠀⠀⣀⠀⡀⠀", "⠀⠀⣇⣰⣿⠒⠃⠀", "⠀⠀⠀⢸⣿⢀⠀⠀", "⠀⠀⠀⠘⣿⠀⠀⠀"]);
}

#[test]
fn cactus_young_trunk_only() {
    let mut g = BrailleGrid::new(8, 4).unwrap();
    CactusArms.draw(&mut g, 6, false, None, None, false);
    assert_rows(&g, &["⠀⠀⠀⠀⠀⠀⠀⠀", "⠀⠀⠀⠀⠀⠀⠀⠀", "⠀⠀⠀⠀⣶⠀⠀⠀", "⠀⠀⠀⠀⣿⠀⠀⠀"]);
}

#[test]
fn cactus_arm_reaching_off_the_bar() {
    let mut g = BrailleGrid::new(3, 2).unwrap();
    CactusArms.draw(&mut g, 7, true, Some(Arm { reach: 6, rise: 8 }), None, true);
    assert_rows(&g, &["⠤⣼⡇", "⠀⢻⡇"]);
}

#[test]
fn punch_out_meter_draining() {
    let mut g = BrailleGrid::new(5, 2).unwrap();
    PunchOutStars.draw(&mut g, 3, false, &vec![]);
    assert_rows(&g, &["███░░", "███░░"]);
    for x in 0..5 {
        let want = if x < 3 { Some(Color::rgb(255, 220, 0)) } else { None };
        assert_eq!(g.get_color(x, 1), want);
    }
}

#[test]
fn punch_out_star_power_pulses() {
    let mut g = BrailleGrid::new(5, 2).unwrap();
    PunchOutStars.draw(&mut g, 9, true, &vec![0, 1, 2, 3, 4]);
    assert_rows(&g, &["█▓█▓█", "█▓█▓█"]);
    assert_eq!(g.get_color(4, 0), Some(Color::rgb(255, 255, 180)));
}

#[test]
fn punch_out_empty_meter_still_tints_first_column() {
    let mut g = BrailleGrid::new(3, 1).unwrap();
    PunchOutStars.draw(&mut g, 0, false, &vec![]);
    assert_rows(&g, &["░░░"]);
    assert_eq!(g.get_color(0, 0), Some(Color::rgb(255, 220, 0)));
    assert_eq!(g.get_color(1, 0), None);
}

#[test]
fn excitebike_warm_engine() {
    let mut g = BrailleGrid::new(6, 2).unwrap();
    Excitebike.draw(&mut g, 7, 3, false);
    assert_rows(&g, &["▒▒▒⢀⠀⠀", "⣀⣀⣌⣢⣀⣀"]);
    for x in 0..6 {
        let want = if x <= 3 { Some(Color::rgb(255, 200, 0)) } else { None };
        assert_eq!(g.get_color(x, 0), want);
        assert_eq!(g.get_color(x, 1), None);
    }
}

#[test]
fn excitebike_overheated_engine() {
    let mut g = BrailleGrid::new(6, 2).unwrap();
    Excitebike.draw(&mut g, 1, 9, true);
    assert_rows(&g, &["██████", "⣢⣀⣀⣀⣀⣀"]);
    assert_eq!(g.get_color(5, 0), Some(Color::rgb(255, 40, 0)));
}

#[test]
fn excitebike_one_row_has_no_gauge() {
    let mut g = BrailleGrid::new(6, 1).unwrap();
    Excitebike.draw(&mut g, 4, 9, true);
    assert_rows(&g, &["⣠⣑⣄⣀⣀⣀"]);
    assert_eq!(g.get_color(0, 0), None);
}

#[test]
fn donkey_kong_girders_barrels_and_mario() {
    let mut g = BrailleGrid::new(10, 3).unwrap();
    DonkeyBarrel.draw(&mut g, &vec![(15, 0), (8, 1), (3, 2), (19, 3)], 5);
    assert_rows(&g, &["⣹⣁⣀⣀⣀⣀⣀⣀⣀⣠", "⣾⣟⣓⣒⣶⣖⣒⣒⣒⣒", "⢺⠒⠒⠒⠒⠒⠒⠛⠓⠒"]);
}

#[test]
fn donkey_kong_single_girder() {
    let mut g = BrailleGrid::new(5, 1).unwrap();
    DonkeyBarrel.draw(&mut g, &vec![(9, 1)], 0);
    assert_rows(&g, &["⣻⡓⠒⠒⠚"]);
}

#[test]
fn brownian_walkers_left_of_the_reveal() {
    let mut g = BrailleGrid::new(12, 2).unwrap();
    BrownianTrail.draw(&mut g, 20, 3);
    assert_rows(&g, &["⡀⠀⢤⣀⠀⠀⡀⠀⠀⣀⠀⠀", "⣈⣀⣀⣉⣁⣈⣑⣀⣈⣉⠀⠀"]);
}

#[test]
fn brownian_nothing_revealed_keeps_one_baseline_dot() {
    let mut g = BrailleGrid::new(12, 2).unwrap();
    BrownianTrail.draw(&mut g, 0, 0);
    assert_rows(&g, &["⠀⠀⠀⠀⠀⠀⠀⠀⠀⠀⠀⠀", "⡀⠀⠀⠀⠀⠀⠀⠀⠀⠀⠀⠀"]);
}

#[test]
fn brownian_wide_bar_negative_seed() {
    let mut g = BrailleGrid::new(30, 3).unwrap();
    BrownianTrail.draw(&mut g, 60, -7);
    assert_rows(&g, &["⠀⠀⠀⠀⠀⢀⡀⠀⠀⠀⠀⠀⠀⠀⠀⠀⠀⠀⠀⠀⠀⠀⠀⠀⠀⠀⠀⠀⠀⠀", "⣢⡤⠀⠀⠠⠷⠉⠀⠀⠀⢤⡠⠄⠀⡠⣤⠄⠀⠀⠐⠷⠁⠀⠀⠀⠐⠲⡤⠀⠀", "⣀⣀⣀⣀⣀⣀⣀⣀⣀⣀⣀⣀⣀⣈⣂⣀⣀⣀⣀⣀⣀⣀⣀⣀⣀⣀⣈⣀⣀⣀"]);
}

#[test]
fn bamboo_three_segments_with_leaves() {
    let mut g = BrailleGrid::new(8, 6).unwrap();
    BambooShoot.draw(&mut g, 3, 0);
    assert_rows(&g, &["⠀⠀⠐⢼█⡇⠀⠀", "⠀⠀⠀⣸█⣇⡀⠀", "⠀⠀⠀⢸█⡇⠀⠀", "⠀⠀⠀⣸█⣇⡀⠀", "⠀⠀⠀⢸█⡗⠀⠀", "⠀⠀⠀⣸█⣇⡀⠀"]);
}

#[test]
fn bamboo_fully_grown_swayed_left() {
    let mut g = BrailleGrid::new(8, 6).unwrap();
    BambooShoot.draw(&mut g, 9, -1);
    assert_rows(&g, &["⠀⠐⢼█⡇⠀⠀⠀", "⠀⠀⣸█⣇⡀⠀⠀", "⠀⠀⢸█⡇⠀⠀⠀", "⠀⠀⣸█⣇⡀⠀⠀", "⠀⠀⢸█⡗⠀⠀⠀", "⠀⠀⣸█⣇⡀⠀⠀"]);
}

#[test]
fn bamboo_single_segment_has_no_leaf() {
    let mut g = BrailleGrid::new(8, 6).unwrap();
    BambooShoot.draw(&mut g, 1, 0);
    assert_rows(&g, &["⠀⠀⠀⠀⠀⠀⠀⠀", "⠀⠀⠀⠀⠀⠀⠀⠀", "⠀⠀⠀⠀⠀⠀⠀⠀", "⠀⠀⠀⠀⠀⠀⠀⠀", "⠀⠀⠀⢸█⡇⠀⠀", "⠀⠀⠀⣸█⣇⡀⠀"]);
}

#[test]
fn bamboo_on_one_row_sways_to_the_edge() {
    let mut g = BrailleGrid::new(5, 1).unwrap();
    BambooShoot.draw(&mut g, 2, 10);
    assert_rows(&g, &["⠀⠀⠀⣸█"]);
    let mut g = BrailleGrid::new(6, 4).unwrap();
    BambooShoot.draw(&mut g, 2, -9);
    assert_rows(&g, &["█⡇⠀⠀⠀⠀", "█⣇⡀⠀⠀⠀", "█⡗⠀⠀⠀⠀", "█⣇⡀⠀⠀⠀"]);
}

#[test]
fn totient_histogram_bars_from_two() {
    let mut g = BrailleGrid::new(4, 2).unwrap();
    TotientHistogram.draw(&mut g, &vec![4, 5, 4, 6, 2, 6, 4]);
    assert_rows(&g, &["⢀⢠⢠⠀", "⣿⣿⣼⡇"]);
}

#[test]
fn totient_histogram_empty_bar_keeps_its_bottom_dot() {
    let mut g = BrailleGrid::new(3, 1).unwrap();
    TotientHistogram.draw(&mut g, &vec![0, 4, 2]);
    assert_rows(&g, &["⣸⡄⠀"]);
}

#[test]
fn collatz_histogram_with_highlight() {
    let mut g = BrailleGrid::new(4, 2).unwrap();
    Collatz.draw(&mut g, &vec![0, 1, 8, 2, 6, 8, 3, 6], 2);
    assert_rows(&g, &["⠀⡇⣼⢠", "⣀⣧⣿⣾"]);
    let mut g = BrailleGrid::new(4, 2).unwrap();
    Collatz.draw(&mut g, &vec![0, 1, 8, 2, 6], 4);
    assert_rows(&g, &["⠀⡇⡆⠀", "⣀⣧⡇⠀"]);
}

#[test]
fn rain_gauge_half_full_with_drops() {
    let mut g = BrailleGrid::new(5, 3).unwrap();
    RainGauge.draw(&mut g, 4, &vec![(3, 2), (7, 9), (20, 0), (1, 5)]);
    assert_rows(&g, &["⡏⠩⠉⠉⢹", "⣗⣀⣀⣠⣸", "⣿⣿⣿⣿⣿"]);
}

#[test]
fn rain_gauge_empty_and_overfull() {
    let mut g = BrailleGrid::new(5, 3).unwrap();
    RainGauge.draw(&mut g, 0, &vec![(3, 2)]);
    assert_rows(&g, &["⡏⠩⠉⠉⢹", "⡇⠀⠀⠀⢸", "⣇⣀⣀⣀⣸"]);
    let mut g = BrailleGrid::new(5, 3).unwrap();
    RainGauge.draw(&mut g, 99, &vec![(3, 2)]);
    assert_rows(&g, &["⣿⣿⣿⣿⣿", "⣿⣿⣿⣿⣿", "⣿⣿⣿⣿⣿"]);
}

#[test]
fn depth_gauge_with_markers_and_bubbles() {
    let mut g = BrailleGrid::new(6, 3).unwrap();
    DepthGauge.draw(&mut g, 5, &vec![0, 2, 5, 7, 9, 11], &vec![(9, 3), (10, 8), (-1, 4), (11, -2)]);
    assert_rows(&g, &["⢽⣿⣿⠀⢀⡀", "⣻⣛⠉⠀⠀⠀", "⣺⣒⣀⠀⠀⠉"]);
}

#[test]
fn depth_gauge_on_a_narrow_bar() {
    let mut g = BrailleGrid::new(2, 1).unwrap();
    DepthGauge.draw(&mut g, 0, &vec![0, 1, 2, 2, 3, 3], &vec![]);
    assert_rows(&g, &["⣿⣿"]);
}
