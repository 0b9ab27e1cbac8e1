use pokemon_sprite_compression::error::DecodeError;
use pokemon_sprite_compression::gen2::decompress;
use pokemon_sprite_compression::reverse::{reverse_bits, REVERSE_LOOKUP};

/// A hand-made stream of 12 commands, some of them in the long form.
const BELLSPROUT_LZ: [u8; 45] = [
    0x36, 0xef, 0x0d, 0x71, 0x93, 0xf8, 0x6c, 0xa8, 0xe0, 0x24, 0x82, 0x62,
    0x52, 0x2d, 0xe3, 0xbb, 0x62, 0x8f, 0x99, 0xf8, 0x0d, 0x00, 0x0d, 0x35,
    0x88, 0xce, 0x00, 0x33, 0xf8, 0x0c, 0x00, 0x0c, 0xb7, 0x81, 0x89, 0xee,
    0x49, 0xcf, 0xb9, 0xdf, 0xcf, 0x40, 0x2b, 0x21, 0xff,
];

/// [`BELLSPROUT_LZ`] decompressed.
const BELLSPROUT_2BPP: [u8; 194] = [
    0xef, 0xef, 0xef, 0xef, 0xef, 0xef, 0xef, 0xef, 0xef, 0xef, 0xef, 0xef,
    0xef, 0xef, 0xef, 0xef, 0xef, 0xef, 0xef, 0xef, 0xef, 0xef, 0xef, 0x71,
    0x93, 0xf8, 0x6c, 0xa8, 0xe0, 0x24, 0x82, 0x62, 0x52, 0x2d, 0xe3, 0xbb,
    0x62, 0xef, 0xef, 0xef, 0xef, 0xef, 0xef, 0xef, 0xef, 0xef, 0xef, 0xef,
    0xef, 0x71, 0x93, 0xf8, 0x6c, 0xef, 0xef, 0xef, 0xef, 0xef, 0xef, 0xef,
    0xef, 0xef, 0xef, 0xef, 0xef, 0xef, 0xef, 0x88, 0x88, 0x88, 0x88, 0x88,
    0x88, 0x88, 0x88, 0x88, 0x88, 0x88, 0x88, 0x88, 0x88, 0x88, 0x88, 0x88,
    0x88, 0x88, 0x88, 0x88, 0x88, 0xf8, 0x93, 0x71, 0xef, 0xef, 0xef, 0xef,
    0xef, 0xef, 0xef, 0xef, 0xef, 0xef, 0xef, 0xef, 0xef, 0xef, 0xef, 0xef,
    0xef, 0xef, 0xef, 0xef, 0xef, 0xef, 0xef, 0xef, 0xef, 0xf7, 0xf7, 0xef,
    0xef, 0xf7, 0xf7, 0xef, 0xef, 0xf7, 0xf7, 0xef, 0xef, 0xf7, 0xf7, 0xef,
    0xef, 0xf7, 0xf7, 0xef, 0xef, 0xf7, 0xf7, 0xef, 0xef, 0x82, 0x62, 0x52,
    0x2d, 0xe3, 0xbb, 0x62, 0xef, 0xef, 0xef, 0xcf, 0xb9, 0xcf, 0xb9, 0xcf,
    0xb9, 0xcf, 0xb9, 0xcf, 0xb9, 0x88, 0x88, 0x88, 0x88, 0x88, 0x88, 0x88,
    0x88, 0x88, 0x88, 0x88, 0x88, 0x88, 0x88, 0x88, 0xef, 0xef, 0xef, 0xef,
    0xef, 0xef, 0xef, 0xef, 0xef, 0xef, 0xef, 0xef, 0xef, 0xef, 0x6c, 0xf8,
    0x93, 0x2b,
];

/// A hand-made stream of 14 commands, some of them in the long form.
const DUGTRIO_LZ: [u8; 291] = [
    0xe0, 0xfb, 0x6c, 0x0e, 0x85, 0x79, 0x0b, 0x7f, 0xb0, 0x31, 0x43, 0x3c,
    0x34, 0xb3, 0x85, 0xc3, 0xe3, 0x67, 0xfc, 0x35, 0x98, 0x25, 0xe8, 0xe8,
    0x84, 0x5b, 0x3c, 0x08, 0xc1, 0x47, 0xf6, 0xbe, 0x22, 0xf7, 0x90, 0xde,
    0xac, 0xa5, 0x1a, 0x75, 0x59, 0x16, 0x41, 0x29, 0x2f, 0x21, 0xcf, 0x6e,
    0x84, 0x87, 0x90, 0xfa, 0x25, 0x17, 0x5d, 0xd6, 0x10, 0xf5, 0x10, 0xaa,
    0x46, 0xb0, 0xbe, 0x16, 0x67, 0x1d, 0xc8, 0xc3, 0x91, 0x4f, 0xe2, 0x91,
    0x0b, 0x42, 0xf8, 0x02, 0x7b, 0xed, 0x23, 0x55, 0x23, 0x6f, 0x73, 0x36,
    0x0f, 0x7b, 0x39, 0x4b, 0xc1, 0x24, 0x82, 0x93, 0x2b, 0x28, 0x83, 0x70,
    0x90, 0x5d, 0xd3, 0x37, 0x8a, 0xdc, 0x3f, 0xd1, 0x0d, 0x26, 0xd8, 0xbe,
    0xa5, 0xc8, 0x38, 0x27, 0x81, 0x72, 0x6d, 0x5b, 0x3e, 0x9b, 0x49, 0x2d,
    0xf5, 0x7f, 0x00, 0x39, 0x80, 0x93, 0xc2, 0xfd, 0x3a, 0x37, 0x18, 0xce,
    0xd9, 0x13, 0x03, 0xd3, 0xef, 0xbb, 0x91, 0xf2, 0xd8, 0xbb, 0x82, 0x54,
    0x58, 0xa5, 0x31, 0x19, 0xb6, 0x87, 0x4a, 0xaa, 0xe7, 0x95, 0x47, 0xe6,
    0xb6, 0x66, 0x53, 0xe7, 0x02, 0xc2, 0x59, 0xb0, 0x9a, 0x87, 0xf4, 0x1d,
    0xdf, 0xff, 0xd9, 0x18, 0xe5, 0x31, 0x89, 0xa4, 0x8e, 0xc6, 0x58, 0x01,
    0xc7, 0xf4, 0x88, 0x88, 0xe6, 0x13, 0xf4, 0x73, 0x32, 0x8c, 0xae, 0xbb,
    0x98, 0x23, 0x88, 0x45, 0x42, 0x57, 0x6a, 0xdd, 0xa0, 0x71, 0xb6, 0x19,
    0x5f, 0x2d, 0x43, 0x8f, 0xfd, 0x59, 0x6a, 0x39, 0x1f, 0x4e, 0x17, 0xf5,
    0x83, 0x56, 0x21, 0x00, 0x62, 0x53, 0x31, 0x06, 0x1c, 0x68, 0x83, 0xe3,
    0xd6, 0xad, 0x7f, 0x70, 0xd1, 0x11, 0xe6, 0x6b, 0x75, 0x26, 0xcf, 0xa7,
    0x55, 0x0e, 0x7c, 0x06, 0x77, 0xe8, 0x99, 0x5f, 0xee, 0xd6, 0xd3, 0x5d,
    0x98, 0x44, 0xa5, 0x9e, 0xe4, 0x8a, 0x4f, 0xf8, 0x39, 0xdd, 0xe8, 0x05,
    0x9b, 0xd3, 0x26, 0x19, 0x21, 0xfd, 0xe8, 0x09, 0x54, 0xf8, 0x22, 0xb0,
    0xf4, 0xbc, 0x01, 0x0b, 0xf4, 0xee, 0xb9, 0xaf, 0x00, 0x15, 0x23, 0x42,
    0xc5, 0xed, 0xff,
];

/// [`DUGTRIO_LZ`] decompressed.
const DUGTRIO_2BPP: [u8; 937] = [
    0x6c, 0x0e, 0x85, 0x79, 0x0b, 0x7f, 0xb0, 0x31, 0x43, 0x3c, 0x34, 0xb3,
    0x85, 0xc3, 0xe3, 0x67, 0xfc, 0x35, 0x98, 0x25, 0xe8, 0xe8, 0x84, 0x5b,
    0x3c, 0x08, 0xc1, 0x47, 0xf6, 0xbe, 0x22, 0xf7, 0x90, 0xde, 0xac, 0xa5,
    0x1a, 0x75, 0x59, 0x16, 0x41, 0x29, 0x2f, 0x21, 0xcf, 0x6e, 0x84, 0x87,
    0x90, 0xfa, 0x25, 0x17, 0x5d, 0xd6, 0x10, 0xf5, 0x10, 0xaa, 0x46, 0xb0,
    0xbe, 0x16, 0x67, 0x1d, 0xc8, 0xc3, 0x91, 0x4f, 0xe2, 0x91, 0x0b, 0x42,
    0xf8, 0x02, 0x7b, 0xed, 0x23, 0x55, 0x23, 0x6f, 0x73, 0x36, 0x0f, 0x7b,
    0x39, 0x4b, 0xc1, 0x24, 0x82, 0x93, 0x2b, 0x28, 0x83, 0x70, 0x90, 0x5d,
    0xd3, 0x37, 0x8a, 0xdc, 0x3f, 0xd1, 0x0d, 0x26, 0xd8, 0xbe, 0xa5, 0xc8,
    0x38, 0x27, 0x81, 0x72, 0x6d, 0x5b, 0x3e, 0x9b, 0x49, 0x2d, 0xf5, 0x7f,
    0x00, 0x39, 0x80, 0x93, 0xc2, 0xfd, 0x3a, 0x37, 0x18, 0xce, 0xd9, 0x13,
    0x03, 0xd3, 0xef, 0xbb, 0x91, 0xf2, 0xd8, 0xbb, 0x82, 0x54, 0x58, 0xa5,
    0x31, 0x19, 0xb6, 0x87, 0x4a, 0xaa, 0xe7, 0x95, 0x47, 0xe6, 0xb6, 0x66,
    0x53, 0xe7, 0x02, 0xc2, 0x59, 0xb0, 0x9a, 0x87, 0xf4, 0x1d, 0xdf, 0xff,
    0xd9, 0x18, 0xe5, 0x31, 0x89, 0xa4, 0x8e, 0xc6, 0x58, 0x01, 0xc7, 0xf4,
    0x88, 0x88, 0xe6, 0x13, 0xf4, 0x73, 0x32, 0x8c, 0xae, 0xbb, 0x98, 0x23,
    0x88, 0x45, 0x42, 0x57, 0x6a, 0xdd, 0xa0, 0x71, 0xb6, 0x19, 0x5f, 0x2d,
    0x43, 0x8f, 0xfd, 0x59, 0x6a, 0x39, 0x1f, 0x4e, 0x17, 0xf5, 0x83, 0x56,
    0x21, 0x00, 0x62, 0x53, 0x31, 0x06, 0x1c, 0x68, 0x83, 0xe3, 0xd6, 0xad,
    0x7f, 0x70, 0xd1, 0x11, 0xe6, 0x6b, 0x75, 0x26, 0xcf, 0xa7, 0x55, 0x0e,
    0x7c, 0x06, 0x77, 0xe8, 0x99, 0x5f, 0xee, 0xd6, 0xd3, 0x5d, 0x98, 0x44,
    0x60, 0x38, 0x16, 0xc1, 0xc7, 0x6b, 0x4f, 0x4f, 0x4f, 0x4f, 0x4f, 0x4f,
    0x4f, 0x4f, 0x4f, 0x4f, 0x4f, 0x4f, 0x4f, 0x4f, 0x4f, 0x4f, 0x4f, 0x4f,
    0x4f, 0x4f, 0x4f, 0x4f, 0x4f, 0x4f, 0x4f, 0x4f, 0x4f, 0x4f, 0x4f, 0x4f,
    0x4f, 0x4f, 0x4f, 0x4f, 0x4f, 0x4f, 0x4f, 0x4f, 0x4f, 0x4f, 0x4f, 0x4f,
    0x4f, 0x4f, 0x4f, 0x4f, 0x4f, 0x4f, 0x4f, 0x4f, 0x4f, 0x4f, 0x4f, 0x4f,
    0x4f, 0x4f, 0x4f, 0x4f, 0x4f, 0x4f, 0x4f, 0x4f, 0x4f, 0x4f, 0x4f, 0x4f,
    0x4f, 0x4f, 0x4f, 0x4f, 0x4f, 0x4f, 0x4f, 0x4f, 0x4f, 0x4f, 0x4f, 0x4f,
    0x4f, 0x4f, 0x4f, 0x4f, 0x4f, 0x4f, 0x4f, 0x4f, 0x4f, 0x4f, 0x4f, 0x4f,
    0x4f, 0x4f, 0x4f, 0x4f, 0x4f, 0x4f, 0x4f, 0x4f, 0x4f, 0x4f, 0x4f, 0x4f,
    0x4f, 0x4f, 0x4f, 0x4f, 0x4f, 0x4f, 0x4f, 0x4f, 0x4f, 0x4f, 0x4f, 0x4f,
    0x4f, 0x4f, 0x4f, 0x4f, 0x4f, 0x4f, 0x4f, 0x4f, 0x4f, 0x4f, 0x4f, 0x4f,
    0x4f, 0x4f, 0x4f, 0x4f, 0x4f, 0x4f, 0x4f, 0x4f, 0x4f, 0x4f, 0x4f, 0x4f,
    0x4f, 0x4f, 0x4f, 0x4f, 0x4f, 0x4f, 0x4f, 0x4f, 0x4f, 0x4f, 0x4f, 0x4f,
    0x4f, 0x4f, 0x4f, 0x4f, 0x4f, 0x4f, 0x4f, 0x4f, 0x4f, 0x4f, 0x4f, 0x4f,
    0x4f, 0x4f, 0x4f, 0x4f, 0x4f, 0x4f, 0x4f, 0x4f, 0x4f, 0x4f, 0x4f, 0x4f,
    0x4f, 0x4f, 0x4f, 0x4f, 0x4f, 0x4f, 0x4f, 0x4f, 0x4f, 0x4f, 0x4f, 0x6b,
    0xc7, 0xc1, 0x16, 0x38, 0x60, 0x44, 0x98, 0x5d, 0xd3, 0xd6, 0xee, 0x9b,
    0xd3, 0x9b, 0xd3, 0x9b, 0xd3, 0x19, 0x19, 0x19, 0x19, 0x19, 0x19, 0x19,
    0xfd, 0xfd, 0x54, 0xf8, 0x54, 0xf8, 0x54, 0xf8, 0x54, 0xf8, 0x54, 0xf8,
    0xb0, 0xb0, 0xb0, 0xf2, 0xf2, 0xf2, 0xf2, 0xf2, 0xf2, 0xf2, 0xf2, 0xf2,
    0xf2, 0xf2, 0xf2, 0xf2, 0xf2, 0xf2, 0xf2, 0xf2, 0xf2, 0xf2, 0xf2, 0xf2,
    0xf2, 0xf2, 0xf2, 0xf2, 0xf2, 0xf2, 0xf2, 0xf2, 0xf2, 0xf2, 0xf2, 0xf2,
    0xf2, 0xf2, 0xf2, 0xf2, 0xf2, 0xf2, 0xf2, 0xf2, 0xf2, 0xf2, 0xf2, 0xf2,
    0xf2, 0xf2, 0xf2, 0xf2, 0xf2, 0xf2, 0xf2, 0xf2, 0xf2, 0xf2, 0xf2, 0xf2,
    0xf2, 0xf2, 0xf2, 0xf2, 0xf2, 0xf2, 0xf2, 0xf2, 0xf2, 0xf2, 0xf2, 0xf2,
    0xf2, 0xf2, 0xf2, 0xf2, 0xf2, 0xf2, 0xf2, 0xf2, 0xf2, 0xf2, 0xf2, 0xf2,
    0xf2, 0xf2, 0xf2, 0xf2, 0xf2, 0xf2, 0xf2, 0xf2, 0xf2, 0xf2, 0xf2, 0xf2,
    0xf2, 0xf2, 0xf2, 0xf2, 0xf2, 0xf2, 0xf2, 0xf2, 0xf2, 0xf2, 0xf2, 0xf2,
    0xf2, 0xf2, 0xf2, 0xf2, 0xf2, 0xf2, 0xf2, 0xf2, 0xf2, 0xf2, 0xf2, 0xf2,
    0xf2, 0xf2, 0xf2, 0xf2, 0xf2, 0xf2, 0xf2, 0xf2, 0xf2, 0xf2, 0xf2, 0xf2,
    0xf2, 0xf2, 0xf2, 0xf2, 0xf2, 0xf2, 0xf2, 0xf2, 0xf2, 0xf2, 0xf2, 0xf2,
    0xf2, 0xf2, 0xf2, 0xf2, 0xf2, 0xf2, 0xf2, 0xf2, 0xf2, 0xf2, 0xf2, 0xf2,
    0xf2, 0xf2, 0xf2, 0xf2, 0xf2, 0xf2, 0xf2, 0xf2, 0xf2, 0xf2, 0xf2, 0xf2,
    0xf2, 0xf2, 0xf2, 0xf2, 0xf2, 0xf2, 0xf2, 0xf2, 0xf2, 0xf2, 0xf2, 0xd6,
    0xe3, 0x83, 0x68, 0x1c, 0x06, 0x22, 0x19, 0xba, 0xcb, 0x6b, 0x77, 0xd9,
    0x4f, 0x4f, 0x4f, 0x4f, 0x4f, 0x4f, 0x4f, 0x4f, 0x4f, 0x4f, 0x4f, 0x4f,
    0x4f, 0x4f, 0x4f, 0x4f, 0x4f, 0x4f, 0x4f, 0x4f, 0x4f, 0x4f, 0x4f, 0x4f,
    0x4f, 0x4f, 0x4f, 0x4f, 0x4f, 0x4f, 0x4f, 0x4f, 0x4f, 0x4f, 0x4f, 0x4f,
    0x4f, 0x4f, 0x4f, 0x4f, 0x4f, 0x4f, 0x4f, 0x4f, 0x4f, 0x6b, 0xc7, 0xc1,
    0x16, 0x38, 0x60, 0x44, 0x98, 0x5d, 0xd3, 0xd6, 0xee, 0x9b, 0xf2, 0xf2,
    0xf2, 0xf2, 0xf2, 0xf2, 0xf2, 0xf2, 0xf2, 0xf2, 0xf2, 0xf2, 0xf2, 0xf2,
    0xf2, 0xf2, 0xf2, 0xf2, 0xf2, 0xf2, 0xf2, 0xf2, 0xf2, 0xf2, 0xf2, 0xf2,
    0xf2, 0xf2, 0xf2, 0xf2, 0xf2, 0xf2, 0xf2, 0xf2, 0xf2, 0xf2, 0xf2, 0xf2,
    0xf2, 0xf2, 0xf2, 0xf2, 0xf2, 0xf2, 0xf2, 0xd6, 0xe3, 0x83, 0x68, 0x1c,
    0x06, 0x22, 0x19, 0xba, 0xcb, 0x6b, 0x77, 0xd9, 0x4f, 0x4f, 0x4f, 0x4f,
    0x4f, 0x4f, 0x4f, 0x4f, 0x4f, 0x4f, 0x4f, 0x4f, 0x4f, 0x4f, 0x4f, 0x4f,
    0x4f, 0x4f, 0x4f, 0x4f, 0x4f, 0x4f, 0x4f, 0x4f, 0x4f, 0x4f, 0x4f, 0x4f,
    0x4f, 0x4f, 0x4f, 0x4f, 0x4f, 0x4f, 0x4f, 0x4f, 0x4f, 0x4f, 0x4f, 0x4f,
    0x4f, 0x4f, 0x4f, 0x4f, 0x4f, 0x6b, 0xc7, 0xc1, 0x16, 0x38, 0x60, 0x44,
    0x98, 0x5d, 0xd3, 0xd6, 0xee, 0x9b, 0xf2, 0xf2, 0xf2, 0xf2, 0xf2, 0xf2,
    0xf2, 0xf2, 0xf2, 0xf2, 0xf2, 0xf2, 0xf2, 0xf2, 0xf2, 0xf2, 0xf2, 0xf2,
    0xf2, 0xf2, 0xf2, 0xf2, 0xf2, 0xf2, 0xf2, 0xf2, 0xf2, 0xf2, 0xf2, 0xf2,
    0xf2, 0xf2, 0xf2, 0xf2, 0xf2, 0xf2, 0xf2, 0xf2, 0xf2, 0xf2, 0xf2, 0xf2,
    0xf2, 0xf2, 0xf2, 0xd6, 0xe3, 0x83, 0x68, 0x1c, 0x06, 0x22, 0x19, 0xba,
    0xcb, 0x6b, 0x77, 0xd9, 0x4f, 0x4f, 0x4f, 0x4f, 0x4f, 0x4f, 0x4f, 0x17,
    0x21, 0xda, 0x3c, 0x10, 0x83, 0xe2, 0x6f, 0x7d, 0x44, 0xef, 0x09, 0x7b,
    0x35, 0xa5, 0x58, 0x42, 0x42, 0x42, 0x42, 0x4f, 0x4f, 0x4f, 0x4f, 0x4f,
    0x4f,
];

/// A hand-made stream of 16 commands, some of them in the long form.
const PIKACHU_LZ: [u8; 130] = [
    0xe0, 0x2f, 0x63, 0x2f, 0x84, 0xcb, 0x50, 0xd1, 0xf2, 0x2d, 0x83, 0x10,
    0x3e, 0xc8, 0x46, 0xfc, 0x94, 0x02, 0xd3, 0x8f, 0x13, 0x75, 0x6e, 0xac,
    0x4c, 0x50, 0x6a, 0x96, 0x37, 0x7f, 0x80, 0x7f, 0x0a, 0x8b, 0x8c, 0x41,
    0xb4, 0x24, 0xfc, 0x56, 0x8a, 0x47, 0x3e, 0x59, 0xf8, 0x2f, 0x5d, 0xc0,
    0x13, 0xa5, 0xc2, 0xad, 0x20, 0x36, 0xf4, 0x10, 0x00, 0x2b, 0x00, 0x84,
    0xa4, 0x98, 0xab, 0x85, 0x89, 0xd3, 0xf8, 0x1b, 0x00, 0x1b, 0xb6, 0xef,
    0xf4, 0x3a, 0xeb, 0x12, 0xcb, 0xdd, 0x27, 0x67, 0xea, 0x51, 0xa2, 0xf8,
    0x2b, 0x83, 0x4f, 0x4c, 0xae, 0x8a, 0xab, 0x78, 0xb8, 0xed, 0x88, 0x10,
    0x71, 0xab, 0x91, 0x4f, 0xa4, 0x83, 0xc9, 0x0d, 0x4f, 0x0a, 0x2a, 0x83,
    0x8b, 0x0d, 0xd6, 0xc7, 0x63, 0x0a, 0x88, 0x5a, 0xce, 0xa2, 0x3e, 0x52,
    0xf2, 0x8d, 0xb9, 0x59, 0xd8, 0xbb, 0x00, 0x0c, 0x75, 0xff,
];

/// [`PIKACHU_LZ`] decompressed.
const PIKACHU_2BPP: [u8; 304] = [
    0x63, 0x2f, 0x84, 0xcb, 0x50, 0xd1, 0xf2, 0x2d, 0x83, 0x10, 0x3e, 0xc8,
    0x46, 0xfc, 0x94, 0x02, 0xd3, 0x8f, 0x13, 0x75, 0x6e, 0xac, 0x4c, 0x50,
    0x6a, 0x96, 0x37, 0x7f, 0x80, 0x7f, 0x0a, 0x8b, 0x8c, 0x41, 0xb4, 0x24,
    0xfc, 0x56, 0x8a, 0x47, 0x3e, 0x59, 0xf8, 0x2f, 0x5d, 0xc0, 0x13, 0xa5,
    0x84, 0x2f, 0x63, 0x36, 0xf4, 0xba, 0x03, 0xc8, 0xa5, 0x21, 0xf4, 0xc6,
    0x6c, 0x2f, 0x5d, 0xc0, 0x13, 0xa5, 0x84, 0x2f, 0x63, 0x84, 0x03, 0xc8,
    0xa5, 0x21, 0xf4, 0x21, 0xc0, 0x13, 0xa5, 0x84, 0x2f, 0x84, 0x03, 0xc8,
    0xa5, 0x21, 0xf4, 0xcb, 0x50, 0xd1, 0xf2, 0x2d, 0x83, 0x10, 0x3e, 0xc8,
    0x46, 0x7f, 0x37, 0x96, 0x6a, 0x50, 0x4c, 0xac, 0x6e, 0x75, 0x13, 0x8f,
    0xd3, 0x02, 0x94, 0xfc, 0x46, 0xc8, 0x3e, 0x10, 0x83, 0x2d, 0xf2, 0xd1,
    0x50, 0xcb, 0x84, 0x2f, 0x63, 0x3f, 0x29, 0x40, 0xcb, 0xf1, 0xc8, 0xae,
    0x76, 0x35, 0x32, 0x0a, 0x56, 0x69, 0xec, 0xfe, 0x01, 0xfe, 0x50, 0xd1,
    0x31, 0x82, 0x2d, 0x24, 0x7c, 0x9a, 0x1f, 0xf4, 0xba, 0x03, 0xc8, 0xa5,
    0x21, 0xf4, 0xc6, 0x6c, 0x2f, 0x5d, 0xc0, 0x13, 0xa5, 0x84, 0x2f, 0x63,
    0x36, 0xf4, 0xba, 0x03, 0xc8, 0xa5, 0x21, 0xf4, 0xc6, 0x21, 0xc0, 0x13,
    0xa5, 0x84, 0x2f, 0x84, 0x03, 0xc8, 0xa5, 0x21, 0xf4, 0x21, 0xc0, 0x13,
    0xa5, 0x84, 0x2f, 0xd3, 0x0a, 0x8b, 0x4f, 0xb4, 0xc1, 0x08, 0x7c, 0x13,
    0x62, 0xfe, 0xec, 0xcb, 0xdd, 0x27, 0x67, 0xea, 0x51, 0xa2, 0xf8, 0x2b,
    0x83, 0x4f, 0x4c, 0xae, 0x8a, 0xab, 0x78, 0xb8, 0xed, 0x88, 0x71, 0xab,
    0x91, 0x4f, 0xa4, 0x83, 0xc9, 0x0d, 0x4f, 0x0a, 0x2a, 0x83, 0x8b, 0x0d,
    0xd6, 0xc7, 0x63, 0x88, 0x5a, 0xce, 0xa2, 0x3e, 0x52, 0xf2, 0x8d, 0xb9,
    0x59, 0xd8, 0x62, 0x3f, 0x29, 0x40, 0xcb, 0xf1, 0xc8, 0xae, 0x76, 0x35,
    0x32, 0x0a, 0x56, 0x69, 0xec, 0xfe, 0x01, 0xfe, 0x50, 0xd1, 0x31, 0x82,
    0x2d, 0x24, 0x3f, 0x6a, 0x51, 0xe2, 0x00, 0x00, 0x00, 0x00, 0x00, 0x00,
    0x00, 0x00, 0x00, 0x00, 0x00, 0x00, 0x00, 0x00, 0x00, 0x00, 0x00, 0x00,
    0x00, 0x00, 0x00, 0x00,
];

/// A hand-made stream of 18 commands, some of them in the long form.
const STEELIX_LZ: [u8; 156] = [
    0xe0, 0x3a, 0x33, 0x32, 0xcf, 0x9a, 0x74, 0x66, 0xa9, 0x07, 0xcb, 0xe5,
    0xb7, 0x93, 0x94, 0x53, 0xf6, 0xa4, 0xc5, 0x08, 0xf5, 0x1d, 0x72, 0xca,
    0x28, 0xd5, 0x86, 0xf8, 0x73, 0xc7, 0xe0, 0x89, 0xa7, 0x22, 0x2b, 0x56,
    0x95, 0xb0, 0x17, 0xfd, 0x64, 0xc2, 0xf7, 0x04, 0xdb, 0x09, 0x4d, 0x17,
    0x30, 0x2c, 0xa0, 0xda, 0x3c, 0x4d, 0xd7, 0x50, 0x0c, 0x31, 0x60, 0x6e,
    0x1a, 0x90, 0x00, 0x25, 0x8c, 0x85, 0xf4, 0x28, 0x00, 0x32, 0xf0, 0x13,
    0xb4, 0x0b, 0x1b, 0xcd, 0x8c, 0x8f, 0x07, 0xc5, 0xeb, 0x07, 0x90, 0xdf,
    0xa7, 0x48, 0xe8, 0x33, 0x81, 0xbe, 0xf8, 0x02, 0xae, 0x3e, 0x02, 0x18,
    0x32, 0xbe, 0xfa, 0x5f, 0xfc, 0x19, 0xe5, 0x50, 0x8c, 0x6d, 0x72, 0xa7,
    0x3f, 0x72, 0xd8, 0xd4, 0xa4, 0xe0, 0xb5, 0x71, 0x24, 0xde, 0xde, 0x81,
    0x4a, 0x0e, 0x60, 0xe6, 0x1c, 0x4e, 0xe0, 0xaf, 0x6c, 0x6e, 0xb1, 0x4f,
    0xa1, 0x04, 0xc6, 0x3b, 0x36, 0xe8, 0x39, 0x6f, 0x47, 0xbb, 0xa1, 0x8f,
    0x00, 0xe5, 0xc4, 0xfb, 0x2b, 0xaf, 0xaf, 0xb7, 0xc9, 0x00, 0xec, 0xff,
];

/// [`STEELIX_LZ`] decompressed.
const STEELIX_2BPP: [u8; 433] = [
    0x33, 0x32, 0xcf, 0x9a, 0x74, 0x66, 0xa9, 0x07, 0xcb, 0xe5, 0xb7, 0x93,
    0x94, 0x53, 0xf6, 0xa4, 0xc5, 0x08, 0xf5, 0x1d, 0x72, 0xca, 0x28, 0xd5,
    0x86, 0xf8, 0x73, 0xc7, 0xe0, 0x89, 0xa7, 0x22, 0x2b, 0x56, 0x95, 0xb0,
    0x17, 0xfd, 0x64, 0xc2, 0xf7, 0x04, 0xdb, 0x09, 0x4d, 0x17, 0x30, 0x2c,
    0xa0, 0xda, 0x3c, 0x4d, 0xd7, 0x50, 0x0c, 0x31, 0x60, 0x6e, 0x1a, 0xfd,
    0x64, 0xc2, 0xf7, 0x04, 0xdb, 0x09, 0x4d, 0x17, 0x30, 0x2c, 0xa0, 0xda,
    0x3c, 0x4d, 0xd7, 0x50, 0xa0, 0xda, 0x3c, 0x4d, 0xd7, 0x50, 0xa0, 0xda,
    0x3c, 0x4d, 0xd7, 0x50, 0xa0, 0x3c, 0xb2, 0xeb, 0x0a, 0x30, 0x8c, 0x06,
    0x76, 0x58, 0xbf, 0x26, 0x43, 0xef, 0x20, 0xdb, 0x90, 0xb2, 0xe8, 0x0c,
    0x34, 0x05, 0x5b, 0x3c, 0xb2, 0xeb, 0x0a, 0x05, 0x5b, 0x3c, 0xb2, 0xeb,
    0x0a, 0x05, 0x5b, 0x3c, 0xb2, 0xeb, 0x0a, 0x05, 0x3c, 0x4d, 0xda, 0x3c,
    0x4d, 0xd7, 0x50, 0xa0, 0xda, 0x3c, 0x4d, 0xd7, 0x50, 0xa0, 0x3c, 0xb2,
    0xeb, 0x0a, 0x30, 0x8c, 0x06, 0x76, 0x1b, 0xcd, 0x8c, 0x8f, 0x07, 0xc5,
    0xeb, 0x07, 0x90, 0xdf, 0xa7, 0x48, 0x81, 0xbe, 0x81, 0xbe, 0x81, 0xbe,
    0x81, 0xbe, 0x81, 0xbe, 0x81, 0xbe, 0x81, 0xbe, 0x81, 0xbe, 0x81, 0xbe,
    0x81, 0xbe, 0x81, 0xbe, 0x81, 0xbe, 0x81, 0xbe, 0x81, 0xbe, 0x81, 0xbe,
    0x81, 0xbe, 0x81, 0xbe, 0x81, 0xbe, 0x81, 0xbe, 0x81, 0xbe, 0x81, 0xbe,
    0x81, 0xbe, 0x81, 0xbe, 0x81, 0xbe, 0x81, 0xbe, 0x81, 0xbe, 0xbe, 0x81,
    0xbe, 0x02, 0x02, 0x02, 0x02, 0x02, 0x02, 0x02, 0x02, 0x02, 0x02, 0x02,
    0x02, 0x02, 0x02, 0x02, 0x02, 0x02, 0x02, 0x02, 0x02, 0x02, 0x02, 0x02,
    0x02, 0x02, 0x02, 0x02, 0x02, 0x02, 0x02, 0x02, 0x32, 0xbe, 0xfa, 0x5f,
    0xfc, 0x19, 0xe5, 0x50, 0x8c, 0x6d, 0x72, 0xa7, 0x3f, 0x72, 0xd8, 0xd4,
    0xa4, 0xe0, 0xb5, 0x71, 0x24, 0xde, 0xde, 0x81, 0x4a, 0x60, 0xe6, 0x1c,
    0x4e, 0xe0, 0xaf, 0x6c, 0x6e, 0xb1, 0x4f, 0xa1, 0x04, 0xc6, 0x3b, 0x36,
    0x6f, 0x47, 0x6f, 0x47, 0x6f, 0x47, 0x6f, 0x47, 0x6f, 0x47, 0x6f, 0x47,
    0x6f, 0x47, 0x6f, 0x47, 0x6f, 0x47, 0x6f, 0x47, 0x6f, 0x47, 0x6f, 0x47,
    0x6f, 0x47, 0x6f, 0x47, 0x6f, 0x47, 0x6f, 0x47, 0x6f, 0x47, 0x6f, 0x47,
    0x6f, 0x47, 0x6f, 0x47, 0x6f, 0x47, 0x6f, 0x47, 0x6f, 0x47, 0x6f, 0x47,
    0x6f, 0x47, 0x6f, 0x47, 0x6f, 0x47, 0x6f, 0x47, 0x6f, 0x47, 0xf6, 0xe2,
    0xf6, 0xe2, 0xf6, 0xe2, 0xf6, 0xe2, 0xf6, 0xe2, 0xf6, 0xe2, 0xf6, 0xe2,
    0xf6, 0xe2, 0xf6, 0xe2, 0xf6, 0xe2, 0xf6, 0xe2, 0xf6, 0xe2, 0xf6, 0xe2,
    0xf6, 0xe2, 0x02, 0x02, 0x02, 0x02, 0x02, 0x02, 0x02, 0x02, 0x02, 0x02,
    0x02, 0x02, 0x02, 0x02, 0x02, 0x02, 0xb5, 0xe0, 0xa4, 0xd4, 0xd8, 0xaf,
    0xaf, 0xaf, 0xaf, 0xaf, 0xaf, 0xaf, 0xaf, 0xaf, 0xaf, 0xaf, 0xaf, 0x47,
    0x6f, 0x47, 0x6f, 0x47, 0x6f, 0x47, 0x6f, 0x47, 0x6f, 0x47, 0x6f, 0x47,
    0x6f, 0x47, 0x6f, 0x02, 0x02, 0x02, 0x02, 0x02, 0x02, 0x02, 0x02, 0x02,
    0x02,
];

#[test]
fn bellsprout() {
    let input = &BELLSPROUT_LZ;
    let expected = &BELLSPROUT_2BPP;

    let actual = decompress(input).unwrap();

    assert_eq!(actual, expected);
}

#[test]
fn dugtrio() {
    let input = &DUGTRIO_LZ;
    let expected = &DUGTRIO_2BPP;

    let actual = decompress(input).unwrap();

    assert_eq!(actual, expected);
}

#[test]
fn pikachu() {
    let input = &PIKACHU_LZ;
    let expected = &PIKACHU_2BPP;

    let actual = decompress(input).unwrap();

    assert_eq!(actual, expected);
}

#[test]
fn steelix() {
    let input = &STEELIX_LZ;
    let expected = &STEELIX_2BPP;

    let actual = decompress(input).unwrap();

    assert_eq!(actual, expected);
}

#[test]
fn single_zero_fill_gives_one_zero_byte() {
    assert_eq!(decompress(&[0x60, 0xff]), Ok(vec![0x00]));
}

#[test]
fn end_marker_alone_gives_nothing() {
    assert_eq!(decompress(&[0xff]), Ok(vec![]));
    assert_eq!(decompress(&[0xff, 0x60, 0x12]), Ok(vec![]));
}

#[test]
fn literal_copies_bytes_from_the_input() {
    assert_eq!(decompress(&[0x02, 1, 2, 3, 0xff]), Ok(vec![1, 2, 3]));
}

#[test]
fn repeat_appends_one_byte_count_times() {
    assert_eq!(decompress(&[0x24, 0xab, 0xff]), Ok(vec![0xab; 5]));
}

#[test]
fn alternation_starts_with_the_first_byte() {
    assert_eq!(decompress(&[0x44, 0x11, 0x22, 0xff]), Ok(vec![0x11, 0x22, 0x11, 0x22, 0x11]));
    assert_eq!(decompress(&[0x40, 0x11, 0x22, 0xff]), Ok(vec![0x11]));
}

#[test]
fn zero_fill_appends_zeros() {
    assert_eq!(decompress(&[0x02, 1, 2, 3, 0x62, 0xff]), Ok(vec![1, 2, 3, 0, 0, 0]));
}

#[test]
fn forward_copy_from_an_absolute_index() {
    assert_eq!(decompress(&[0x02, 1, 2, 3, 0x81, 0x00, 0x01, 0xff]), Ok(vec![1, 2, 3, 2, 3]));
}

#[test]
fn forward_copy_counts_back_from_the_last_byte() {
    // Distance 0 is the last byte written.
    assert_eq!(decompress(&[0x02, 1, 2, 3, 0x80, 0x80, 0xff]), Ok(vec![1, 2, 3, 3]));
    assert_eq!(decompress(&[0x02, 1, 2, 3, 0x80, 0x82, 0xff]), Ok(vec![1, 2, 3, 1]));
}

#[test]
fn forward_copy_reads_what_it_has_just_written() {
    assert_eq!(decompress(&[0x00, 0xab, 0x83, 0x80, 0xff]), Ok(vec![0xab; 5]));
    assert_eq!(
        decompress(&[0x02, 1, 2, 3, 0x83, 0x81, 0xff]),
        Ok(vec![1, 2, 3, 2, 3, 2, 3])
    );
}

#[test]
fn bit_reversed_copy_turns_each_byte_round() {
    // 1101_0111 read from its other end is 1110_1011.
    assert_eq!(decompress(&[0x00, 0xd7, 0xa0, 0x80, 0xff]), Ok(vec![0xd7, 0xeb]));
    assert_eq!(
        decompress(&[0x01, 0x01, 0x80, 0xa1, 0x00, 0x00, 0xff]),
        Ok(vec![0x01, 0x80, 0x80, 0x01])
    );
}

#[test]
fn bit_reversed_copy_of_its_own_output_reverses_twice() {
    assert_eq!(decompress(&[0x00, 0xd7, 0xa1, 0x80, 0xff]), Ok(vec![0xd7, 0xeb, 0xd7]));
}

#[test]
fn backward_copy_reads_towards_the_start() {
    assert_eq!(decompress(&[0x02, 1, 2, 3, 0xc2, 0x80, 0xff]), Ok(vec![1, 2, 3, 3, 2, 1]));
    assert_eq!(decompress(&[0x02, 1, 2, 3, 0xc1, 0x00, 0x01, 0xff]), Ok(vec![1, 2, 3, 2, 1]));
}

#[test]
fn long_form_takes_its_count_from_ten_bits() {
    assert_eq!(decompress(&[0xed, 0x00, 0xff]), Ok(vec![0; 257]));
    assert_eq!(decompress(&[0xe4, 0x20, 0x5a, 0xff]), Ok(vec![0x5a; 33]));
    assert_eq!(decompress(&[0xe0, 0x01, 0x0a, 0x0b, 0xff]), Ok(vec![0x0a, 0x0b]));
    assert_eq!(decompress(&[0xef, 0xff, 0xff]), Ok(vec![0; 1024]));
}

#[test]
fn long_form_naming_the_long_form_is_refused() {
    assert_eq!(decompress(&[0xfc, 0x00, 0xff]), Err(DecodeError::InvariantViolation));
    assert_eq!(decompress(&[0xfe, 0x00, 0xff]), Err(DecodeError::InvariantViolation));
    assert_eq!(decompress(&[0x60, 0xfd, 0x10, 0xff]), Err(DecodeError::InvariantViolation));
}

#[test]
fn long_form_without_its_second_byte_is_malformed() {
    assert_eq!(decompress(&[0xfc]), Err(DecodeError::MalformedStream));
    assert_eq!(decompress(&[0xe0]), Err(DecodeError::MalformedStream));
}

#[test]
fn stream_without_end_marker_is_malformed() {
    assert_eq!(decompress(&[]), Err(DecodeError::MalformedStream));
    assert_eq!(decompress(&[0x60]), Err(DecodeError::MalformedStream));
    assert_eq!(decompress(&[0x02, 1, 2, 3]), Err(DecodeError::MalformedStream));
}

#[test]
fn command_that_runs_out_of_input_is_malformed() {
    assert_eq!(decompress(&[0x02, 1, 2]), Err(DecodeError::MalformedStream));
    assert_eq!(decompress(&[0x02, 1, 0xff]), Err(DecodeError::MalformedStream));
    assert_eq!(decompress(&[0x24]), Err(DecodeError::MalformedStream));
    assert_eq!(decompress(&[0x40, 0x11]), Err(DecodeError::MalformedStream));
    assert_eq!(decompress(&[0x60, 0x80]), Err(DecodeError::MalformedStream));
    assert_eq!(decompress(&[0x60, 0x80, 0x00]), Err(DecodeError::MalformedStream));
}

#[test]
fn copy_from_output_not_yet_written_is_refused() {
    // Nothing has been written.
    assert_eq!(decompress(&[0x80, 0x80, 0xff]), Err(DecodeError::ReferenceOutOfBounds));
    assert_eq!(decompress(&[0x80, 0x00, 0x00, 0xff]), Err(DecodeError::ReferenceOutOfBounds));
    // One byte has been written: distance 1 and index 1 are outside.
    assert_eq!(decompress(&[0x60, 0x80, 0x81, 0xff]), Err(DecodeError::ReferenceOutOfBounds));
    assert_eq!(decompress(&[0x60, 0xa0, 0x00, 0x01, 0xff]), Err(DecodeError::ReferenceOutOfBounds));
    assert_eq!(decompress(&[0x60, 0xc0, 0x00, 0x01, 0xff]), Err(DecodeError::ReferenceOutOfBounds));
}

#[test]
fn backward_copy_past_the_start_is_refused() {
    assert_eq!(decompress(&[0x02, 1, 2, 3, 0xc2, 0x80, 0xff]), Ok(vec![1, 2, 3, 3, 2, 1]));
    assert_eq!(
        decompress(&[0x02, 1, 2, 3, 0xc3, 0x80, 0xff]),
        Err(DecodeError::ReferenceOutOfBounds)
    );
}

#[test]
fn missing_input_is_reported_before_a_bad_reference() {
    // The address of the copy is cut off, and nothing has been written
    // that it could point to.
    assert_eq!(decompress(&[0x80]), Err(DecodeError::MalformedStream));
    assert_eq!(decompress(&[0x80, 0x00]), Err(DecodeError::MalformedStream));
}

#[test]
fn bit_reversal_table_turns_every_byte_round() {
    for b in 0..=255u8 {
        assert_eq!(reverse_bits(b), b.reverse_bits());
        assert_eq!(REVERSE_LOOKUP[b as usize], b.reverse_bits());
    }
    assert_eq!(reverse_bits(0xd7), 0xeb);
    assert_eq!(reverse_bits(0x01), 0x80);
}
