use zorro::chess::bitboard::{
    contains, file_bb, lowest, north, rank_bb, single, south, step_all, with, without,
};
use zorro::chess::magic::TABLE_SIZE;
use zorro::chess::tables::leapers::{
    boxed_king_attacks, boxed_knight_attacks, king_attacks_from, knight_attacks_from, square_on,
};
use zorro::chess::tables::rays::{ray_attacks, relevant_mask, Line};
use zorro::chess::{AttackTables, Magic, Square};

const KING_ATTACKS: [u64; 64] = [
    0x0000_0000_0000_0302,
    0x0000_0000_0000_0705,
    0x0000_0000_0000_0e0a,
    0x0000_0000_0000_1c14,
    0x0000_0000_0000_3828,
    0x0000_0000_0000_7050,
    0x0000_0000_0000_e0a0,
    0x0000_0000_0000_c040,
    0x0000_0000_0003_0203,
    0x0000_0000_0007_0507,
    0x0000_0000_000e_0a0e,
    0x0000_0000_001c_141c,
    0x0000_0000_0038_2838,
    0x0000_0000_0070_5070,
    0x0000_0000_00e0_a0e0,
    0x0000_0000_00c0_40c0,
    0x0000_0000_0302_0300,
    0x0000_0000_0705_0700,
    0x0000_0000_0e0a_0e00,
    0x0000_0000_1c14_1c00,
    0x0000_0000_3828_3800,
    0x0000_0000_7050_7000,
    0x0000_0000_e0a0_e000,
    0x0000_0000_c040_c000,
    0x0000_0003_0203_0000,
    0x0000_0007_0507_0000,
    0x0000_000e_0a0e_0000,
    0x0000_001c_141c_0000,
    0x0000_0038_2838_0000,
    0x0000_0070_5070_0000,
    0x0000_00e0_a0e0_0000,
    0x0000_00c0_40c0_0000,
    0x0000_0302_0300_0000,
    0x0000_0705_0700_0000,
    0x0000_0e0a_0e00_0000,
    0x0000_1c14_1c00_0000,
    0x0000_3828_3800_0000,
    0x0000_7050_7000_0000,
    0x0000_e0a0_e000_0000,
    0x0000_c040_c000_0000,
    0x0003_0203_0000_0000,
    0x0007_0507_0000_0000,
    0x000e_0a0e_0000_0000,
    0x001c_141c_0000_0000,
    0x0038_2838_0000_0000,
    0x0070_5070_0000_0000,
    0x00e0_a0e0_0000_0000,
    0x00c0_40c0_0000_0000,
    0x0302_0300_0000_0000,
    0x0705_0700_0000_0000,
    0x0e0a_0e00_0000_0000,
    0x1c14_1c00_0000_0000,
    0x3828_3800_0000_0000,
    0x7050_7000_0000_0000,
    0xe0a0_e000_0000_0000,
    0xc040_c000_0000_0000,
    0x0203_0000_0000_0000,
    0x0507_0000_0000_0000,
    0x0a0e_0000_0000_0000,
    0x141c_0000_0000_0000,
    0x2838_0000_0000_0000,
    0x5070_0000_0000_0000,
    0xa0e0_0000_0000_0000,
    0x40c0_0000_0000_0000,
];

const LINES: [Line; 4] = [Line::File, Line::Rank, Line::Diagonal, Line::AntiDiagonal];

fn sq(name: &str) -> Square {
    Square::from_str(name).unwrap()
}

fn set(names: &[&str]) -> u64 {
    names.iter().fold(0, |bb, name| with(bb, sq(name)))
}

/// The attack set found by walking square by square, written without the
/// library.
fn walk(line: Line, from: usize, occ: u64) -> u64 {
    let (df, dr): (i32, i32) = match line {
        Line::File => (0, 1),
        Line::Rank => (1, 0),
        Line::Diagonal => (1, 1),
        Line::AntiDiagonal => (1, -1),
    };
    let mut bb = 0u64;
    for sign in [1, -1] {
        let mut f = (from / 8) as i32 + sign * df;
        let mut r = (from % 8) as i32 + sign * dr;
        while (0..8).contains(&f) && (0..8).contains(&r) {
            let x = (8 * f + r) as u64;
            bb |= 1 << x;
            if occ >> x & 1 == 1 {
                break;
            }
            f += sign * df;
            r += sign * dr;
        }
    }
    bb
}

fn subsets(mask: u64) -> Vec<u64> {
    let mut all = Vec::new();
    let mut s = 0u64;
    loop {
        all.push(s);
        if s == mask {
            break;
        }
        s = s.wrapping_sub(mask) & mask;
    }
    all
}

#[test]
fn king_table_is_the_known_table() {
    let table = boxed_king_attacks();
    let tables = AttackTables::new();
    for i in 0..64 {
        assert_eq!(table[i], KING_ATTACKS[i]);
        assert_eq!(king_attacks_from(Square::new(i as u8)), KING_ATTACKS[i]);
        assert_eq!(tables.king_attacks(Square::new(i as u8)), KING_ATTACKS[i]);
    }
}

#[test]
fn knight_table_holds_the_knight_jumps() {
    let table = boxed_knight_attacks();
    let tables = AttackTables::new();
    assert_eq!(table[sq("a1").i()], set(&["b3", "c2"]));
    assert_eq!(table[sq("h8").i()], set(&["g6", "f7"]));
    assert_eq!(
        table[sq("e4").i()],
        set(&["d2", "f2", "c3", "g3", "c5", "g5", "d6", "f6"])
    );
    assert_eq!(table[sq("b1").i()], set(&["a3", "c3", "d2"]));
    for i in 0..64 {
        assert_eq!(knight_attacks_from(Square::new(i as u8)), table[i]);
        assert_eq!(tables.knight_attacks(Square::new(i as u8)), table[i]);
        assert_eq!(table[i].count_ones() as usize, {
            let f = (i / 8) as i32;
            let r = (i % 8) as i32;
            let jumps = [(1, 2), (1, -2), (-1, 2), (-1, -2), (2, 1), (2, -1), (-2, 1), (-2, -1)];
            jumps
                .iter()
                .filter(|(df, dr)| (0..8).contains(&(f + df)) && (0..8).contains(&(r + dr)))
                .count()
        });
    }
}

#[test]
fn squares_off_the_board_are_refused() {
    assert_eq!(square_on(0, 0), Some(sq("a1")));
    assert_eq!(square_on(7, 7), Some(sq("h8")));
    assert_eq!(square_on(4, 3), Some(sq("e4")));
    assert_eq!(square_on(8, 0), None);
    assert_eq!(square_on(0, 8), None);
    assert_eq!(square_on(-1, 3), None);
    assert_eq!(square_on(3, -1), None);
}

#[test]
fn rays_stop_at_the_first_piece() {
    let occ = set(&["e6", "e7", "c4", "g2"]);
    assert_eq!(ray_attacks(Line::File, sq("e4"), occ), set(&["e1", "e2", "e3", "e5", "e6"]));
    assert_eq!(
        ray_attacks(Line::Rank, sq("e4"), occ),
        set(&["c4", "d4", "f4", "g4", "h4"])
    );
    assert_eq!(
        ray_attacks(Line::Diagonal, sq("e4"), occ),
        set(&["b1", "c2", "d3", "f5", "g6", "h7"])
    );
    assert_eq!(
        ray_attacks(Line::AntiDiagonal, sq("e4"), occ),
        set(&["a8", "b7", "c6", "d5", "f3", "g2"])
    );
    assert_eq!(ray_attacks(Line::File, sq("a1"), 0), set(&["a2", "a3", "a4", "a5", "a6", "a7", "a8"]));
    assert_eq!(ray_attacks(Line::AntiDiagonal, sq("a1"), 0), 0);
    assert_eq!(ray_attacks(Line::Diagonal, sq("a8"), u64::MAX), 0);
}

#[test]
fn rays_are_the_walk_on_every_square() {
    let occupancies = [0u64, u64::MAX, 0x0000_0018_1800_0000, 0x8142_2418_1824_4281, 0x00ff_0000_0000_ff00];
    for line in LINES {
        for i in 0..64usize {
            for occ in occupancies {
                assert_eq!(ray_attacks(line, Square::new(i as u8), occ), walk(line, i, occ));
            }
        }
    }
}

#[test]
fn relevant_squares_are_the_inner_squares_of_the_line() {
    assert_eq!(relevant_mask(Line::File, sq("e4")), set(&["e2", "e3", "e5", "e6", "e7"]));
    assert_eq!(relevant_mask(Line::Rank, sq("a1")), set(&["b1", "c1", "d1", "e1", "f1", "g1"]));
    assert_eq!(relevant_mask(Line::Diagonal, sq("e4")), set(&["c2", "d3", "f5", "g6"]));
    assert_eq!(relevant_mask(Line::AntiDiagonal, sq("e4")), set(&["b7", "c6", "d5", "f3", "g2"]));
    assert_eq!(relevant_mask(Line::Diagonal, sq("h1")), 0);
    assert_eq!(relevant_mask(Line::AntiDiagonal, sq("a2")), 0);
}

#[test]
fn magics_of_the_file_shift_the_inner_squares_down() {
    let magics = Magic::by_file();
    assert_eq!(magics[0].magify(0), 0);
    assert_eq!(magics[0].magify(0b10), 1);
    assert_eq!(magics[0].magify(0b0111_1110), 0x3f);
    assert_eq!(magics[0].magify(0xffff_ffff_ffff_ff81), 0);
    assert_eq!(magics[sq("e4").i()].magify(set(&["e2", "e7", "d4", "a1"])), 0b100001);
    assert_eq!(magics[0].to_text(), "(BB & 0x7f) * 0x1 >> 0o1");
    assert_eq!(magics[sq("b5").i()].to_text(), "(BB & 0x7f00) * 0x1 >> 0o11");
    assert_eq!(magics[63].to_text(), "(BB & 0x7f00000000000000) * 0x1 >> 0o71");
}

#[test]
fn magics_of_the_rank_gather_the_inner_squares() {
    let magics = Magic::by_rank();
    assert_eq!(magics[sq("a1").i()].magify(set(&["b1"])), 0b000001);
    assert_eq!(magics[sq("a1").i()].magify(set(&["g1"])), 0b100000);
    assert_eq!(magics[sq("a1").i()].magify(set(&["a1", "h1", "b2"])), 0);
    assert_eq!(magics[sq("d5").i()].magify(set(&["b5", "c5", "f5"])), 0b010011);
    assert_eq!(
        magics[sq("a1").i()].to_text(),
        "(BB & 0x1010101010100) * 0x4081020408000 >> 0o72"
    );
    assert_eq!(
        magics[sq("c8").i()].to_text(),
        "(BB & 0x80808080808000) * 0x81020408100 >> 0o72"
    );
}

#[test]
fn magics_of_the_diagonals_index_by_rank() {
    let main = Magic::by_main_diagonal();
    let anti = Magic::by_anti_diagonal();
    assert_eq!(main[sq("a1").i()].magify(set(&["b2", "g7"])), 0b100001);
    assert_eq!(main[sq("a1").i()].magify(set(&["a1", "h8", "b3"])), 0);
    assert_eq!(anti[sq("a8").i()].magify(set(&["b7", "g2"])), 0b100001);
    assert_eq!(anti[sq("e4").i()].magify(set(&["d5", "f3", "e5"])), 0b001010);
    assert_eq!(main[sq("e4").i()].to_text(), "(BB & 0x20100004020000) * 0x202020202020202 >> 0o72");
}

#[test]
fn every_magic_maps_every_subset_to_the_walk() {
    let tables = AttackTables::new();
    let by_file = Magic::by_file();
    let by_rank = Magic::by_rank();
    let by_main_diagonal = Magic::by_main_diagonal();
    let by_anti_diagonal = Magic::by_anti_diagonal();
    for line in LINES {
        for i in 0..64usize {
            let square = Square::new(i as u8);
            let magic = match line {
                Line::File => by_file[i],
                Line::Rank => by_rank[i],
                Line::Diagonal => by_main_diagonal[i],
                Line::AntiDiagonal => by_anti_diagonal[i],
            };
            let table = magic.attack_table(line, square).unwrap();
            assert_eq!(table.len(), TABLE_SIZE);
            let mask = relevant_mask(line, square) | single(square);
            for occ in subsets(mask) {
                let index = magic.magify(occ) as usize;
                assert!(index < TABLE_SIZE);
                assert_eq!(table[index], walk(line, i, occ));
                assert_eq!(tables.line_attacks(line, square, occ), walk(line, i, occ));
                let noise = occ | !mask;
                assert_eq!(tables.line_attacks(line, square, noise), walk(line, i, noise));
            }
        }
    }
}

#[test]
fn rook_and_bishop_attacks_join_their_lines() {
    let tables = AttackTables::new();
    let occupancies = [0u64, u64::MAX, 0x0000_0018_1800_0000, 0x8142_2418_1824_4281, 0x00ff_0000_0000_ff00];
    for i in 0..64usize {
        let square = Square::new(i as u8);
        for occ in occupancies {
            assert_eq!(
                tables.rook_attacks(square, occ),
                walk(Line::File, i, occ) | walk(Line::Rank, i, occ)
            );
            assert_eq!(
                tables.bishop_attacks(square, occ),
                walk(Line::Diagonal, i, occ) | walk(Line::AntiDiagonal, i, occ)
            );
        }
    }
}

#[test]
fn an_unsound_magic_builds_no_table() {
    let e4 = sq("e4");
    // The mask misses the relevant squares.
    assert_eq!(Magic::new(0, 1, 58).attack_table(Line::File, e4), None);
    // An index falls outside the table.
    assert_eq!(Magic::new(0x7f << 32, 1, 0).attack_table(Line::File, e4), None);
    // Two occupancies with different attack sets share an index.
    assert_eq!(Magic::new(0x7f << 32, 1, 36).attack_table(Line::File, e4), None);
    assert_eq!(Magic::new(0x7e << 32, 0, 58).attack_table(Line::File, e4), None);
    // The magic of another square.
    assert_eq!(Magic::for_line(Line::Rank, sq("e5")).attack_table(Line::Rank, e4), None);
    assert_eq!(Magic::for_line(Line::Diagonal, e4).attack_table(Line::AntiDiagonal, e4), None);
    // A sound magic that is not the library's own.
    let table = Magic::new(0x7e << 32, 1, 33).attack_table(Line::File, e4).unwrap();
    assert_eq!(table[0], set(&["e1", "e2", "e3", "e5", "e6", "e7", "e8"]));
}

#[test]
fn bitboard_helpers() {
    assert_eq!(single(sq("a1")), 1);
    assert_eq!(single(sq("h8")), 1 << 63);
    assert_eq!(with(0, sq("b1")), 0x100);
    assert_eq!(without(0x101, sq("b1")), 1);
    assert_eq!(without(0x101, sq("c1")), 0x101);
    assert!(contains(0x100, sq("b1")));
    assert!(!contains(0x100, sq("a1")));
    assert_eq!(lowest(0x100), sq("b1"));
    assert_eq!(lowest(u64::MAX), sq("a1"));
    assert_eq!(lowest(1 << 63), sq("h8"));
    assert_eq!(file_bb(0), 0xff);
    assert_eq!(file_bb(7), 0xff00_0000_0000_0000);
    assert_eq!(rank_bb(0), 0x0101_0101_0101_0101);
    assert_eq!(rank_bb(7), 0x8080_8080_8080_8080);
}

#[test]
fn stepping_drops_what_leaves_the_board() {
    assert_eq!(north(set(&["a1", "a8", "h7"])), set(&["a2", "h8"]));
    assert_eq!(south(set(&["a1", "a8", "b1"])), set(&["a7"]));
    assert_eq!(step_all(set(&["a1", "h1", "h8", "d4"]), 1, 1), set(&["b2", "e5"]));
    assert_eq!(step_all(set(&["a1", "h1", "a8", "d4"]), -1, 1), set(&["g2", "c5"]));
    assert_eq!(step_all(set(&["a1", "h1", "h8", "d4"]), 1, -1), set(&["e3"]));
    assert_eq!(step_all(set(&["a1", "h8", "a8", "d4"]), -1, -1), set(&["g7", "c3"]));
    assert_eq!(step_all(set(&["a1", "h8"]), 1, 0), set(&["b1"]));
    assert_eq!(step_all(set(&["a1", "h8"]), -1, 0), set(&["g8"]));
    assert_eq!(step_all(u64::MAX, 0, 0), u64::MAX);
    assert_eq!(step_all(u64::MAX, 1, 1), 0xfefe_fefe_fefe_fe00);
}
