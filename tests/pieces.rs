use torrent_bootstrap::pieces::{Piece, PieceFile, Pieces};
use torrent_bootstrap::torrent::{File, Info, Torrent};

#[test]
fn construct_pieces_multiple_file_should_succeed() {
    let torrent = Torrent {
        info: Info {
            name: "Example".to_string(),
            length: None,
            files: Some(vec![
                File {
                    length: 262540,
                    path: vec!["1.png".to_string()],
                },
                File {
                    length: 557338,
                    path: vec!["2.jpeg".to_string()],
                },
            ]),
            piece_length: 524288,
            pieces: vec![
                vec![205, 113, 172, 214, 185, 177, 13, 52, 20, 24, 149, 41, 222, 64, 164, 229, 154, 232, 64, 198],
                vec![222, 220, 208, 9, 117, 139, 87, 43, 47, 57, 191, 94, 78, 142, 68, 176, 66, 206, 40, 67],
            ],
            private: None,
        },
        announce: None,
        announce_list: None,
        creation_date: None,
        comment: None,
        created_by: None,
        info_hash: vec![158, 107, 242, 157, 198, 208, 115, 71, 243, 8, 84, 55, 8, 17, 60, 86, 152, 141, 19, 186],
    };

    let actual = Pieces::from_torrent(&torrent);

    let expected: Vec<Piece> = vec![
        Piece {
            position: 0,
            files: vec![
                PieceFile {
                    read_length: 262540,
                    read_start_position: 0,
                    file_index: 0,
                    file_length: 262540,
                },
                PieceFile {
                    read_length: 261748,
                    read_start_position: 0,
                    file_index: 1,
                    file_length: 557338,
                },
            ],
            hash: vec![205, 113, 172, 214, 185, 177, 13, 52, 20, 24, 149, 41, 222, 64, 164, 229, 154, 232, 64, 198],
            length: 524288,
        },
        Piece {
            position: 1,
            files: vec![PieceFile {
                read_length: 295590,
                read_start_position: 261748,
                file_index: 1,
                file_length: 557338,
            }],
            hash: vec![222, 220, 208, 9, 117, 139, 87, 43, 47, 57, 191, 94, 78, 142, 68, 176, 66, 206, 40, 67],
            length: 295590,
        },
    ];

    assert_eq!(expected, actual);
}

#[test]
fn construct_pieces_single_file_should_succeed() {
    let torrent = Torrent {
        info: Info {
            name: "1.png".to_string(),
            length: Some(262540),
            files: None,
            piece_length: 131072,
            pieces: vec![
                vec![
                    64, 130, 19, 100, 17, 41, 244, 154, 238, 44, 197, 197, 249, 130, 222, 79, 160, 252, 114, 195
                ],
                vec![
                    41, 171, 65, 2, 191, 39, 185, 197, 162, 144, 29, 204, 204, 17, 252, 6, 214, 131, 198, 99
                ],
                vec![
                    145, 103, 77, 168, 208, 237, 195, 161, 115, 88, 170, 201, 20, 164, 210, 40, 71, 176, 91, 105
                ],
            ],
            private: None,
        },
        announce: None,
        announce_list: None,
        creation_date: None,
        comment: None,
        created_by: None,
        info_hash: vec![
            222, 16, 92, 167, 219, 78, 170, 190, 18, 50, 30, 43, 240, 88, 62, 206, 226, 0, 163, 166,
        ],
    };

    let actual = Pieces::from_torrent(&torrent);

    let expected: Vec<Piece> = vec![
        Piece {
            position: 0,
            files: vec![PieceFile {
                read_length: 131072,
                read_start_position: 0,
                file_index: 0,
                file_length: 262540,
            }],
            hash: vec![
                64, 130, 19, 100, 17, 41, 244, 154, 238, 44, 197, 197, 249, 130, 222, 79, 160,
                252, 114, 195,
            ],
            length: 131072,
        },
        Piece {
            position: 1,
            files: vec![PieceFile {
                read_length: 131072,
                read_start_position: 131072,
                file_index: 0,
                file_length: 262540,
            }],
            hash: vec![
                41, 171, 65, 2, 191, 39, 185, 197, 162, 144, 29, 204, 204, 17, 252, 6, 214,
                131, 198, 99,
            ],
            length: 131072,
        },
        Piece {
            position: 2,
            files: vec![PieceFile {
                read_length: 396,
                read_start_position: 262144,
                file_index: 0,
                file_length: 262540,
            }],
            hash: vec![
                145, 103, 77, 168, 208, 237, 195, 161, 115, 88, 170, 201, 20, 164, 210, 40, 71,
                176, 91, 105,
            ],
            length: 396,
        },
    ];

    assert_eq!(expected, actual);
}
