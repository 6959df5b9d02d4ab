use bittorrent::bencode::{bdecode, BencodeParseErrorType};
use bittorrent::meta_info_file::{File, Info, MetaInfoFile, MetaInfoFileParseError, Pieces};
use bittorrent::torrent::PiecedContent;

const PIECES: &str = "abcdefghijklmnopqrstABCDEFGHIJKLMNOPQRST";

fn single_file_document() -> Vec<u8> {
    format!(
        "d8:announce31:http://tracker.example/announce4:infod6:lengthi20e4:name5:a.txt12:piece lengthi16e6:pieces40:{}ee",
        PIECES
    )
    .into_bytes()
}

fn multi_file_document() -> Vec<u8> {
    format!(
        "d8:announce31:http://tracker.example/announce4:infod5:filesld6:lengthi10e4:pathl3:dir5:a.bineed6:lengthi6e4:pathl5:c.txteee4:name4:root12:piece lengthi8e6:pieces40:{}ee",
        PIECES
    )
    .into_bytes()
}

fn digests() -> Pieces {
    Pieces(vec![
        String::from("6162636465666768696a6b6c6d6e6f7071727374"),
        String::from("4142434445464748494a4b4c4d4e4f5051525354"),
    ])
}

#[test]
fn reads_a_single_file_torrent() {
    let m = MetaInfoFile::from_bytes(&single_file_document(), "/").unwrap();
    assert_eq!(m.announce, "http://tracker.example/announce");
    assert_eq!(
        m.info,
        Info::SingleFile {
            piece_length: 16,
            pieces: digests(),
            name: String::from("a.txt"),
            file: File { length: 20, path: String::from("a.txt") },
        }
    );
    assert_eq!(
        m.info_hash,
        [
            106, 235, 229, 179, 149, 231, 201, 213, 121, 155, 218, 138, 131, 133, 175, 189, 78,
            254, 75, 103
        ]
    );
    assert_eq!(m.number_of_pieces(), 2);
    assert_eq!(m.piece_length(), 16);
    assert_eq!(m.total_length(), 20);
}

#[test]
fn reads_a_multi_file_torrent() {
    let m = MetaInfoFile::from_bytes(&multi_file_document(), "/").unwrap();
    assert_eq!(
        m.info,
        Info::MultiFile {
            piece_length: 8,
            pieces: digests(),
            directory_name: String::from("root"),
            files: vec![
                File { length: 10, path: String::from("dir/a.bin") },
                File { length: 6, path: String::from("c.txt") },
            ],
        }
    );
    assert_eq!(
        m.info_hash,
        [
            69, 206, 25, 87, 181, 209, 82, 144, 234, 146, 26, 66, 168, 219, 124, 24, 142, 118, 53,
            51
        ]
    );
    assert_eq!(m.total_length(), 16);
    assert_eq!(m.number_of_pieces(), 2);
}

fn error_for(document: &str) -> MetaInfoFileParseError {
    MetaInfoFile::from_bytes(document.as_bytes(), "/").unwrap_err()
}

#[test]
fn missing_or_ill_typed_keys_are_reported() {
    assert_eq!(error_for("i1e"), MetaInfoFileParseError::NotADictionary);
    assert_eq!(error_for("d8:announce1:xe"), MetaInfoFileParseError::Info);
    assert_eq!(error_for("d4:infoi1ee"), MetaInfoFileParseError::Info);
    assert_eq!(error_for("d4:infodee"), MetaInfoFileParseError::PieceLength);
    assert_eq!(error_for("d4:infod12:piece lengthi0eee"), MetaInfoFileParseError::PieceLength);
    assert_eq!(
        error_for("d4:infod12:piece lengthi16e6:pieces3:abcee"),
        MetaInfoFileParseError::Pieces
    );
    assert_eq!(
        error_for("d4:infod12:piece lengthi16e6:pieces0:ee"),
        MetaInfoFileParseError::Name
    );
    assert_eq!(
        error_for("d4:infod6:lengthi-1e4:name1:a12:piece lengthi16e6:pieces0:ee"),
        MetaInfoFileParseError::Length
    );
    assert_eq!(
        error_for("d4:infod4:name1:a12:piece lengthi16e6:pieces0:ee"),
        MetaInfoFileParseError::Files
    );
    assert_eq!(
        error_for("d4:infod5:filesli1ee4:name1:a12:piece lengthi16e6:pieces0:ee"),
        MetaInfoFileParseError::File
    );
    assert_eq!(
        error_for("d4:infod6:lengthi20e4:name1:a12:piece lengthi16e6:pieces0:ee"),
        MetaInfoFileParseError::Layout
    );
    assert_eq!(
        error_for("d4:infod6:lengthi16e4:name1:a12:piece lengthi16e6:pieces20:aaaaaaaaaaaaaaaaaaaaee"),
        MetaInfoFileParseError::Announce
    );
}

#[test]
fn undecodable_metadata_reports_the_decoder_error() {
    match MetaInfoFile::from_bytes(b"d4:info", "/") {
        Err(MetaInfoFileParseError::Decode(e)) => {
            assert_eq!(e.error_type, BencodeParseErrorType::ParseValue);
            assert_eq!(e.index, 7);
        }
        other => panic!("unexpected {:?}", other),
    }
}

#[test]
fn decoded_documents_are_read_the_same_way() {
    let doc = bdecode(&single_file_document()).unwrap();
    let m = MetaInfoFile::from_bencodable(&doc, "/").unwrap();
    assert_eq!(m.info_hash[0], 106);
}

#[test]
fn paths_are_joined_with_the_given_separator() {
    let m = MetaInfoFile::from_bytes(&multi_file_document(), "\\").unwrap();
    match m.info {
        Info::MultiFile { files, .. } => {
            assert_eq!(files[0].path, "dir\\a.bin");
            assert_eq!(files[1].path, "c.txt");
        }
        other => panic!("unexpected {:?}", other),
    }
}
