use stream_zipper::gzip::GZipError;
use stream_zipper::zip::ZipError;
use stream_zipper::{start_stream, Error, File, ReadHeadersResult, State};

const ZIPPED_AB_ZIP: &[u8] = &[
    0x50, 0x4b, 0x03, 0x04, 0x14, 0x00, 0x00, 0x00, 0x08, 0x00, 0x7d, 0x69, 0x8d, 0x4c, 0x2c, 0xe2,
    0xf8, 0xb9, 0x91, 0x00, 0x00, 0x00, 0xbe, 0x05, 0x00, 0x00, 0x0c, 0x00, 0x00, 0x00, 0x7a, 0x69,
    0x70, 0x70, 0x65, 0x64, 0x5f, 0x61, 0x2e, 0x74, 0x78, 0x74, 0x8d, 0xd4, 0x3d, 0x0a, 0x02, 0x41,
    0x10, 0x44, 0xe1, 0xdc, 0x53, 0xf4, 0x01, 0x44, 0xac, 0x2a, 0x7f, 0xef, 0xb1, 0x17, 0xd8, 0x60,
    0x96, 0x1d, 0x58, 0x34, 0x70, 0x02, 0x8f, 0xaf, 0xb1, 0x18, 0x3c, 0xe8, 0xf0, 0x45, 0x1f, 0x45,
    0x4f, 0x6b, 0x7f, 0xd5, 0xf7, 0x96, 0xbe, 0xb5, 0x9a, 0xf7, 0xb5, 0xf5, 0x47, 0xab, 0x63, 0x3d,
    0x97, 0x1a, 0x6b, 0xab, 0xd1, 0xde, 0xe3, 0xb0, 0x9b, 0xfe, 0x35, 0x02, 0x8d, 0x41, 0x13, 0xd0,
    0x9c, 0x40, 0x73, 0x06, 0xcd, 0x05, 0x34, 0x57, 0xd0, 0xdc, 0x40, 0x73, 0x27, 0x86, 0x08, 0x9a,
    0x48, 0x8b, 0x50, 0x8b, 0x58, 0x8b, 0x60, 0x8b, 0x68, 0x8b, 0x70, 0x8b, 0x78, 0x8b, 0x80, 0x8b,
    0x88, 0x9b, 0x88, 0x1b, 0x6d, 0x9b, 0x88, 0x9b, 0x88, 0x9b, 0x88, 0x9b, 0x88, 0x9b, 0x88, 0x9b,
    0x88, 0x9b, 0x88, 0x9b, 0x88, 0x87, 0x88, 0x87, 0x88, 0x07, 0xbd, 0x13, 0x22, 0x1e, 0x22, 0x1e,
    0x22, 0x1e, 0x22, 0x1e, 0x22, 0x1e, 0x22, 0x9e, 0x1f, 0xf1, 0x0f, 0x50, 0x4b, 0x03, 0x04, 0x14,
    0x00, 0x00, 0x00, 0x08, 0x00, 0x7d, 0x69, 0x8d, 0x4c, 0xe1, 0xa5, 0x38, 0x18, 0x82, 0x00, 0x00,
    0x00, 0x28, 0x05, 0x00, 0x00, 0x0c, 0x00, 0x00, 0x00, 0x7a, 0x69, 0x70, 0x70, 0x65, 0x64, 0x5f,
    0x62, 0x2e, 0x74, 0x78, 0x74, 0x95, 0xd1, 0x4b, 0x0a, 0x83, 0x40, 0x14, 0x44, 0xd1, 0x79, 0x56,
    0xf1, 0x56, 0x10, 0xcc, 0xc7, 0x54, 0xe9, 0xcc, 0xa5, 0xd8, 0xa4, 0x43, 0x84, 0x46, 0x07, 0x36,
    0x64, 0xfb, 0xba, 0x00, 0x85, 0x5c, 0xa8, 0x59, 0xdd, 0xd9, 0x19, 0xe6, 0x77, 0xd4, 0xef, 0xb4,
    0xc6, 0xbe, 0xcf, 0x54, 0x72, 0xa4, 0x3e, 0xba, 0x2e, 0xd2, 0x52, 0x6b, 0xc9, 0x6b, 0x2c, 0xf3,
    0xfe, 0xe6, 0xf8, 0x8d, 0xa5, 0x5c, 0x2f, 0xc3, 0x51, 0x6b, 0xd0, 0x0a, 0xb4, 0x2f, 0xd0, 0xb6,
    0xa0, 0x7d, 0x82, 0xf6, 0x01, 0xda, 0x3b, 0x68, 0x6f, 0xa0, 0x6d, 0xfe, 0x6f, 0x0d, 0xdc, 0x0c,
    0xdc, 0x0c, 0xdc, 0x0c, 0xdc, 0x0c, 0xdc, 0x0c, 0xdc, 0x0c, 0xdc, 0x0c, 0xdc, 0x0c, 0xdc, 0x0c,
    0xdc, 0x04, 0xdc, 0x04, 0xdc, 0x04, 0xdc, 0x04, 0xdc, 0x04, 0xdc, 0x04, 0xdc, 0x04, 0xdc, 0x04,
    0xdc, 0x04, 0xdc, 0x74, 0xe2, 0xb6, 0x01, 0x50, 0x4b, 0x01, 0x02, 0x1e, 0x03, 0x14, 0x00, 0x00,
    0x00, 0x08, 0x00, 0x7d, 0x69, 0x8d, 0x4c, 0x2c, 0xe2, 0xf8, 0xb9, 0x91, 0x00, 0x00, 0x00, 0xbe,
    0x05, 0x00, 0x00, 0x0c, 0x00, 0x00, 0x00, 0x00, 0x00, 0x00, 0x00, 0x00, 0x00, 0x00, 0x00, 0xa4,
    0x81, 0x00, 0x00, 0x00, 0x00, 0x7a, 0x69, 0x70, 0x70, 0x65, 0x64, 0x5f, 0x61, 0x2e, 0x74, 0x78,
    0x74, 0x50, 0x4b, 0x01, 0x02, 0x1e, 0x03, 0x14, 0x00, 0x00, 0x00, 0x08, 0x00, 0x7d, 0x69, 0x8d,
    0x4c, 0xe1, 0xa5, 0x38, 0x18, 0x82, 0x00, 0x00, 0x00, 0x28, 0x05, 0x00, 0x00, 0x0c, 0x00, 0x00,
    0x00, 0x00, 0x00, 0x00, 0x00, 0x00, 0x00, 0x00, 0x00, 0xa4, 0x81, 0xbb, 0x00, 0x00, 0x00, 0x7a,
    0x69, 0x70, 0x70, 0x65, 0x64, 0x5f, 0x62, 0x2e, 0x74, 0x78, 0x74, 0x50, 0x4b, 0x05, 0x06, 0x00,
    0x00, 0x00, 0x00, 0x02, 0x00, 0x02, 0x00, 0x74, 0x00, 0x00, 0x00, 0x67, 0x01, 0x00, 0x00, 0x00,
    0x00,
];

const ZIPPED_A_GZ: &[u8] = &[
    0x1f, 0x8b, 0x08, 0x08, 0xb5, 0x38, 0xd4, 0x5a, 0x00, 0x03, 0x7a, 0x69, 0x70, 0x70, 0x65, 0x64,
    0x5f, 0x61, 0x2e, 0x74, 0x78, 0x74, 0x00, 0x8d, 0xd4, 0x3d, 0x0a, 0x02, 0x41, 0x10, 0x44, 0xe1,
    0xdc, 0x53, 0xf4, 0x01, 0x44, 0xac, 0x2a, 0x7f, 0xef, 0xb1, 0x17, 0xd8, 0x60, 0x96, 0x1d, 0x58,
    0x34, 0x70, 0x02, 0x8f, 0xaf, 0xb1, 0x18, 0x3c, 0xe8, 0xf0, 0x45, 0x1f, 0x45, 0x4f, 0x6b, 0x7f,
    0xd5, 0xf7, 0x96, 0xbe, 0xb5, 0x9a, 0xf7, 0xb5, 0xf5, 0x47, 0xab, 0x63, 0x3d, 0x97, 0x1a, 0x6b,
    0xab, 0xd1, 0xde, 0xe3, 0xb0, 0x9b, 0xfe, 0x35, 0x02, 0x8d, 0x41, 0x13, 0xd0, 0x9c, 0x40, 0x73,
    0x06, 0xcd, 0x05, 0x34, 0x57, 0xd0, 0xdc, 0x40, 0x73, 0x27, 0x86, 0x08, 0x9a, 0x48, 0x8b, 0x50,
    0x8b, 0x58, 0x8b, 0x60, 0x8b, 0x68, 0x8b, 0x70, 0x8b, 0x78, 0x8b, 0x80, 0x8b, 0x88, 0x9b, 0x88,
    0x1b, 0x6d, 0x9b, 0x88, 0x9b, 0x88, 0x9b, 0x88, 0x9b, 0x88, 0x9b, 0x88, 0x9b, 0x88, 0x9b, 0x88,
    0x9b, 0x88, 0x87, 0x88, 0x87, 0x88, 0x07, 0xbd, 0x13, 0x22, 0x1e, 0x22, 0x1e, 0x22, 0x1e, 0x22,
    0x1e, 0x22, 0x1e, 0x22, 0x9e, 0x1f, 0xf1, 0x0f, 0x2c, 0xe2, 0xf8, 0xb9, 0xbe, 0x05, 0x00, 0x00,
];

const NUMBERS_ZIP: &[u8] = &[
    0x50, 0x4b, 0x03, 0x04, 0x14, 0x00, 0x00, 0x00, 0x08, 0x00, 0x7d, 0x69, 0x8d, 0x4c, 0x4c, 0x64,
    0x24, 0xec, 0x82, 0x08, 0x00, 0x00, 0xce, 0xb5, 0x00, 0x00, 0x0b, 0x00, 0x00, 0x00, 0x6e, 0x75,
    0x6d, 0x62, 0x65, 0x72, 0x73, 0x2e, 0x74, 0x78, 0x74, 0xed, 0x97, 0xd9, 0x71, 0x24, 0x21, 0x10,
    0x05, 0xff, 0xb1, 0xa6, 0xb9, 0xc1, 0x7f, 0xc7, 0x36, 0x93, 0x91, 0x13, 0x1b, 0xf1, 0x62, 0xb5,
    0x31, 0xd2, 0x34, 0x0d, 0x45, 0x9d, 0x2f, 0xbf, 0x52, 0xcb, 0x28, 0xb7, 0xd4, 0x55, 0xda, 0x2c,
    0x7d, 0x95, 0x71, 0xcb, 0x1a, 0xe5, 0xd4, 0x52, 0xbf, 0xaf, 0xd4, 0xc6, 0xe7, 0x18, 0x3c, 0x65,
    0xc5, 0x65, 0x09, 0x6b, 0xda, 0xe4, 0xf3, 0xdc, 0xd2, 0xdb, 0x60, 0x3d, 0x6f, 0xb3, 0x6e, 0x0c,
    0x3e, 0xcf, 0x28, 0xb3, 0xdd, 0x32, 0xf7, 0x2a, 0x8b, 0x75, 0x8b, 0xcf, 0xcd, 0xdf, 0x9b, 0xef,
    0x0f, 0xcf, 0x2f, 0xeb, 0xae, 0xeb, 0x77, 0xa9, 0xb5, 0x95, 0xba, 0x6f, 0x69, 0xe3, 0x94, 0x5e,
    0xd9, 0xea, 0xb6, 0x32, 0xd6, 0x2e, 0x93, 0xa3, 0x56, 0xeb, 0x65, 0x7f, 0x83, 0xd7, 0x76, 0x39,
    0xbb, 0x95, 0x3b, 0xd9, 0x02, 0x2b, 0x56, 0xe3, 0x64, 0x2c, 0x9c, 0x9e, 0xe6, 0x52, 0x4e, 0xe1,
    0x73, 0xf3, 0xf7, 0xe1, 0xfb, 0xcb, 0xf3, 0x3b, 0x4a, 0xfb, 0x58, 0x52, 0x4f, 0x19, 0xbd, 0x97,
    0xc9, 0xa3, 0x85, 0xe1, 0xfb, 0x72, 0x70, 0xed, 0x85, 0xb3, 0xeb, 0xf1, 0xc0, 0xcd, 0x0e, 0xa7,
    0x4c, 0xee, 0xb8, 0xb9, 0xf6, 0x99, 0xbd, 0xd4, 0xc9, 0x0f, 0xd7, 0xba, 0x97, 0x47, 0x5c, 0xe3,
    0xf2, 0x68, 0xb0, 0x31, 0x9f, 0x98, 0xd5, 0x5a, 0x2b, 0x1d, 0x73, 0x67, 0x3f, 0x65, 0xb1, 0xe4,
    0x70, 0x16, 0x7b, 0x37, 0x36, 0xea, 0x67, 0x71, 0x0e, 0x66, 0x74, 0xce, 0xe0, 0xec, 0xca, 0xff,
    0xc6, 0x85, 0xc7, 0xc2, 0x01, 0x1c, 0x72, 0xb0, 0x63, 0xf4, 0xd2, 0x3a, 0x17, 0x6c, 0x9a, 0xc0,
    0x79, 0xb5, 0x62, 0x03, 0x5f, 0x71, 0x11, 0x3e, 0x57, 0xc7, 0x3d, 0x1d, 0xa7, 0xe3, 0x8e, 0x8d,
    0xe1, 0x78, 0x76, 0x7f, 0xdc, 0x85, 0xcd, 0x2b, 0x1b, 0x77, 0xbc, 0x38, 0x2f, 0xae, 0x68, 0x5c,
    0xe6, 0x60, 0xe1, 0xc4, 0xc9, 0x78, 0x87, 0x2b, 0xb3, 0x4f, 0xc3, 0x0b, 0xe3, 0xe0, 0x30, 0x2c,
    0xbc, 0x8b, 0x73, 0xf0, 0xf7, 0xd8, 0x3c, 0x26, 0x6e, 0x77, 0x63, 0x22, 0x97, 0x19, 0x57, 0x2f,
    0x71, 0x03, 0x1c, 0xc8, 0x7d, 0x26, 0xbf, 0x1e, 0xef, 0xfb, 0x75, 0x36, 0x67, 0x53, 0xce, 0xbe,
    0x95, 0xa5, 0x9f, 0x5b, 0x71, 0xef, 0xc9, 0x25, 0xbf, 0xd2, 0x89, 0xd8, 0xe2, 0xa0, 0xfb, 0x61,
    0x17, 0x21, 0x9a, 0xdf, 0xc1, 0x91, 0x64, 0x01, 0xaf, 0x0e, 0x96, 0xef, 0x0f, 0xbf, 0x10, 0xb9,
    0xee, 0x0e, 0xbd, 0x5c, 0x5c, 0xd3, 0xb0, 0x6f, 0x6e, 0x4c, 0xc5, 0xc9, 0x8d, 0x57, 0x27, 0x3b,
    0x1f, 0xbc, 0x5a, 0x2f, 0xdf, 0xb3, 0xc5, 0x19, 0x44, 0x9d, 0x58, 0x4c, 0xae, 0x76, 0x30, 0xbc,
    0x91, 0x10, 0x93, 0x77, 0x8f, 0xf7, 0x6a, 0xac, 0xc1, 0xd5, 0x97, 0x63, 0x1a, 0x17, 0x58, 0xac,
    0xbf, 0x6b, 0xb1, 0x3f, 0xd6, 0xe0, 0x12, 0xdc, 0x39, 0xf0, 0xc0, 0xde, 0x7a, 0x05, 0x6b, 0xf8,
    0xfd, 0x70, 0xef, 0xb6, 0x75, 0x20, 0x31, 0xc5, 0x97, 0x1f, 0xb6, 0xf3, 0x66, 0x25, 0x67, 0x26,
    0x49, 0x7c, 0xd9, 0xb1, 0x73, 0xe7, 0xed, 0x5d, 0x71, 0xfd, 0xac, 0xc6, 0x13, 0x8b, 0xab, 0xf9,
    0x85, 0x55, 0x5a, 0xa8, 0x9b, 0x9a, 0x97, 0xc5, 0x65, 0xe6, 0xe5, 0xc6, 0xbb, 0x07, 0x2b, 0xf1,
    0x1a, 0x19, 0x7c, 0xbc, 0x94, 0xd9, 0x7c, 0xc9, 0x90, 0xce, 0x23, 0x53, 0x84, 0x27, 0x98, 0x3f,
    0xc9, 0x7d, 0x36, 0xd9, 0x9d, 0x97, 0x78, 0xba, 0x38, 0x8c, 0x5b, 0x4f, 0x1e, 0xdd, 0x65, 0xf6,
    0x11, 0x53, 0x12, 0xa6, 0x0f, 0xb3, 0xcf, 0x4d, 0xb0, 0xc3, 0xd2, 0xc1, 0xe7, 0x0b, 0xe7, 0x56,
    0x3c, 0xb1, 0xf8, 0x9d, 0x8b, 0x4d, 0x76, 0x32, 0xe3, 0xb4, 0x0a, 0xff, 0x93, 0x45, 0x44, 0x76,
    0x98, 0xd0, 0xec, 0x31, 0x30, 0xe0, 0x62, 0xe3, 0x68, 0xc6, 0x88, 0xf8, 0x70, 0xcc, 0xc5, 0x33,
    0xa3, 0xfb, 0x9c, 0x3b, 0x93, 0x85, 0x77, 0x18, 0x72, 0x22, 0x60, 0xa2, 0x50, 0x37, 0xbc, 0x36,
    0xc9, 0x38, 0x1c, 0x35, 0xaf, 0x05, 0x8c, 0xff, 0x06, 0x1e, 0xa0, 0x9a, 0xb6, 0xbe, 0xe5, 0xb8,
    0xad, 0x65, 0xcd, 0xd8, 0x60, 0x69, 0xb5, 0x6c, 0xb8, 0x9a, 0x96, 0xf1, 0x43, 0xe6, 0x55, 0xdc,
    0xbe, 0x8d, 0xba, 0xa1, 0xb4, 0xc6, 0xa9, 0xfb, 0x6b, 0xc5, 0xe1, 0xc4, 0x8a, 0x93, 0x17, 0xaf,
    0x35, 0x8b, 0x83, 0xdf, 0x3b, 0xdb, 0xde, 0xa9, 0xc3, 0x79, 0x8f, 0x93, 0xb7, 0xe5, 0xc7, 0xf7,
    0x07, 0x63, 0x86, 0xf5, 0xcf, 0xe9, 0x84, 0xab, 0x11, 0xbe, 0x63, 0xe1, 0x72, 0x77, 0x5c, 0xb1,
    0xcc, 0x54, 0x8c, 0x38, 0xdb, 0xec, 0x24, 0x64, 0x5c, 0x6d, 0x5b, 0x4c, 0xd8, 0x7d, 0xad, 0x4c,
    0x5e, 0x6b, 0x86, 0xcb, 0xab, 0x4f, 0x4f, 0xe0, 0x31, 0x09, 0x8c, 0xed, 0x97, 0x08, 0x2d, 0xbe,
    0x6e, 0x94, 0xcb, 0xc1, 0xb0, 0xc9, 0xf2, 0x86, 0xd1, 0x07, 0x8f, 0x0c, 0xc3, 0x44, 0x31, 0x6f,
    0xbb, 0x89, 0x79, 0x47, 0x51, 0x6c, 0x72, 0x6a, 0x18, 0x24, 0x2e, 0xb4, 0x97, 0x15, 0xc7, 0xf7,
    0x55, 0x1f, 0xb8, 0xb5, 0x61, 0xe5, 0x92, 0x36, 0x30, 0xa2, 0x57, 0x39, 0xf6, 0xbc, 0xd6, 0x62,
    0x75, 0x72, 0x2c, 0x67, 0x2e, 0xcf, 0x65, 0x3d, 0x2d, 0x65, 0x7f, 0xf6, 0x3a, 0x2b, 0x80, 0xa3,
    0x3f, 0x83, 0x4d, 0x41, 0x19, 0x20, 0x52, 0x78, 0x4d, 0x8b, 0x89, 0xa0, 0xf8, 0x08, 0x77, 0x10,
    0x9b, 0xb6, 0x6c, 0x77, 0x16, 0xb3, 0x1d, 0x80, 0xd7, 0x74, 0x27, 0x97, 0x5d, 0x58, 0xd0, 0x8f,
    0x91, 0xb1, 0xf5, 0xe0, 0x4e, 0xdd, 0xa8, 0x25, 0x9f, 0x55, 0x41, 0x45, 0x90, 0x2f, 0x1d, 0x17,
    0x57, 0x53, 0x7c, 0x59, 0x84, 0x38, 0x06, 0x0f, 0x54, 0x7c, 0x78, 0xb1, 0x64, 0x61, 0xe9, 0xa0,
    0x43, 0x37, 0x5c, 0xee, 0x05, 0x29, 0xd9, 0xb9, 0xec, 0x8b, 0x74, 0x37, 0x4b, 0xf9, 0x33, 0x5f,
    0x59, 0x82, 0x13, 0x1a, 0x4b, 0xe9, 0x4f, 0xc7, 0xc0, 0x5a, 0x40, 0xaf, 0xc5, 0x98, 0xd6, 0x78,
    0xde, 0x6e, 0x82, 0x9b, 0x70, 0x61, 0xb7, 0x19, 0xdb, 0xbe, 0x38, 0x68, 0x0f, 0xfb, 0x37, 0x77,
    0xe1, 0x22, 0x8d, 0xbf, 0x71, 0xfe, 0x79, 0xe9, 0x60, 0xa5, 0xb2, 0x94, 0x80, 0x35, 0x6c, 0xc0,
    0xb9, 0x87, 0xeb, 0x6c, 0xcb, 0x4a, 0x47, 0x1a, 0x10, 0xde, 0xaa, 0x2f, 0xfd, 0x31, 0x1b, 0x6f,
    0x2d, 0x9c, 0x39, 0x87, 0x65, 0xc9, 0x2b, 0x9c, 0x56, 0xf1, 0x14, 0xff, 0x5e, 0xab, 0xf4, 0xd2,
    0x26, 0xbb, 0xf3, 0x86, 0xa2, 0xb0, 0xf0, 0xf8, 0xce, 0xae, 0x80, 0x49, 0xfb, 0x25, 0x08, 0x67,
    0x98, 0x9d, 0x96, 0xd9, 0xb4, 0xf1, 0x63, 0x22, 0xbf, 0xf3, 0xd5, 0x25, 0x38, 0xc7, 0xb2, 0x22,
    0xad, 0x16, 0x67, 0xcf, 0x63, 0xf2, 0x62, 0x83, 0x63, 0xa4, 0x9b, 0x6a, 0x76, 0x79, 0x9b, 0x23,
    0x6e, 0xc5, 0x1d, 0x43, 0x53, 0x39, 0x98, 0x4b, 0xee, 0x61, 0x2f, 0x71, 0x38, 0x91, 0x37, 0xf6,
    0xaa, 0x6a, 0x9e, 0x70, 0x0a, 0x2e, 0xeb, 0x5c, 0xa9, 0x5b, 0x1f, 0x8e, 0x99, 0x6a, 0x2e, 0x90,
    0x27, 0xdc, 0x18, 0x4f, 0xfa, 0x0d, 0xe7, 0x5a, 0x62, 0xe6, 0x27, 0xed, 0xe4, 0x1c, 0x67, 0x00,
    0x9f, 0xfc, 0x7d, 0xf0, 0xc1, 0x21, 0xeb, 0xb7, 0x7d, 0x1b, 0xe7, 0x6e, 0x9c, 0xbd, 0x4d, 0x42,
    0x8a, 0x6a, 0x63, 0xc0, 0xee, 0x7e, 0xf6, 0xbf, 0xff, 0x7f, 0xdf, 0xf9, 0xcc, 0x35, 0xae, 0xdd,
    0xbf, 0x77, 0xdd, 0xe3, 0xed, 0xe5, 0x9e, 0xeb, 0x77, 0x86, 0x67, 0xbd, 0x33, 0x39, 0xbb, 0x3d,
    0x43, 0x30, 0x47, 0xab, 0xb4, 0x4e, 0x2b, 0xb5, 0x56, 0xab, 0xb5, 0xde, 0x5b, 0x78, 0x1b, 0x6f,
    0xe5, 0xed, 0xbc, 0xa5, 0xb7, 0xf5, 0xd6, 0xde, 0x5e, 0x2f, 0xe8, 0x0d, 0x53, 0xb1, 0xfe, 0x7c,
    0xa4, 0xaf, 0xf4, 0xd9, 0x78, 0xfd, 0xfd, 0xe7, 0x4b, 0x7d, 0xaa, 0x6f, 0xf5, 0xb1, 0xbe, 0x36,
    0x13, 0xf1, 0xbc, 0x11, 0x30, 0x12, 0x46, 0xc4, 0xc8, 0x18, 0x21, 0x23, 0x65, 0xc4, 0xea, 0x2f,
    0x7e, 0xc6, 0xd1, 0x78, 0x1a, 0x57, 0xe3, 0x6b, 0x9c, 0x8d, 0xf7, 0x79, 0xb1, 0x37, 0x07, 0xcc,
    0x05, 0x73, 0x62, 0xbd, 0x80, 0x9c, 0x97, 0x2b, 0xe6, 0x8c, 0xb9, 0x63, 0x0e, 0x99, 0x4b, 0xe6,
    0x94, 0xb9, 0x65, 0xab, 0x25, 0xd3, 0xcc, 0x38, 0x33, 0xcf, 0x0c, 0x34, 0x13, 0xe7, 0x7e, 0x79,
    0x69, 0x7e, 0x9a, 0xa7, 0xfb, 0x35, 0xfa, 0xfd, 0xf2, 0xd7, 0x3c, 0x36, 0x9f, 0xcd, 0x6b, 0xf3,
    0xfb, 0x8d, 0x87, 0x5f, 0xd6, 0x9b, 0xfd, 0x56, 0xc1, 0x59, 0xaf, 0x26, 0xac, 0x0d, 0x6b, 0xc4,
    0x5a, 0xb1, 0x66, 0xac, 0x1d, 0x6b, 0xc8, 0x5a, 0xb2, 0xa8, 0x47, 0x7b, 0x15, 0x66, 0xa5, 0x59,
    0x71, 0x56, 0x9e, 0x15, 0x68, 0x25, 0x5a, 0x91, 0x56, 0xa6, 0x15, 0x6a, 0xa5, 0x5a, 0xb1, 0x56,
    0xae, 0x15, 0x6c, 0x25, 0x5b, 0xd1, 0x56, 0xb6, 0x15, 0x6e, 0xa5, 0x5b, 0xf1, 0x56, 0xbe, 0x1d,
    0xc0, 0x4e, 0x60, 0x47, 0xb0, 0x33, 0xd8, 0x21, 0xec, 0x14, 0x0e, 0x24, 0x5b, 0xda, 0xec, 0xaf,
    0x8f, 0xd8, 0x4f, 0xec, 0x2b, 0xf6, 0x17, 0xfb, 0x8c, 0xfd, 0xc6, 0xbe, 0x53, 0xcf, 0xeb, 0x42,
    0x76, 0x23, 0xbb, 0x92, 0xdd, 0x69, 0xbe, 0x42, 0xd8, 0xaf, 0x6b, 0xd9, 0xbd, 0xec, 0x62, 0x76,
    0x33, 0xbb, 0x9a, 0xdd, 0xcd, 0x2e, 0x67, 0xb7, 0xb3, 0xeb, 0xd9, 0xfd, 0xec, 0x82, 0x76, 0x43,
    0xbb, 0xa2, 0xdd, 0xd1, 0x2e, 0x69, 0xb7, 0xb4, 0x6b, 0xda, 0x3d, 0xed, 0xa2, 0x76, 0x53, 0xbb,
    0xaa, 0xdd, 0x75, 0x3d, 0x09, 0x31, 0x5f, 0xd7, 0xb5, 0xfb, 0xde, 0xf9, 0x7a, 0xb1, 0x3d, 0xd9,
    0xde, 0x3c, 0x5f, 0x3a, 0x9d, 0xd7, 0xb3, 0xed, 0xdd, 0xf6, 0x70, 0x7b, 0xb9, 0x3d, 0xdd, 0xde,
    0x6e, 0x8f, 0xdf, 0xed, 0x75, 0x7c, 0x3b, 0xbf, 0x13, 0xc0, 0x49, 0xa0, 0xb1, 0x7b, 0xbd, 0xf9,
    0xe0, 0x9c, 0x70, 0x5e, 0xd4, 0x37, 0xb1, 0xda, 0x9b, 0x23, 0xce, 0x13, 0xe7, 0x8a, 0xf3, 0xc5,
    0x39, 0xe3, 0xbc, 0x71, 0xee, 0x38, 0x7f, 0x9c, 0x43, 0xce, 0x23, 0xe7, 0x92, 0xf3, 0xc9, 0x39,
    0xe5, 0xbc, 0xe2, 0x20, 0xa7, 0x97, 0x53, 0xcc, 0x69, 0xe6, 0x54, 0x73, 0xba, 0x39, 0xe5, 0xde,
    0xb4, 0xd3, 0x95, 0x6c, 0xfb, 0xa6, 0xa0, 0x2a, 0xe3, 0x7e, 0x6f, 0x38, 0x62, 0xb7, 0x07, 0x7f,
    0xe3, 0x4d, 0xce, 0x37, 0x41, 0x9d, 0xa4, 0x4e, 0xd4, 0xa7, 0xcc, 0xe6, 0x6f, 0xd2, 0xbe, 0x89,
    0xbb, 0x7e, 0x13, 0xd8, 0x71, 0xf4, 0x1a, 0xfe, 0xf8, 0x4d, 0x68, 0x27, 0x35, 0x71, 0xde, 0x6f,
    0x7a, 0x3b, 0xc4, 0x39, 0x4e, 0xad, 0x82, 0x35, 0x6f, 0xc2, 0xaf, 0xef, 0x4d, 0xfc, 0x37, 0xf9,
    0x55, 0x00, 0x76, 0xf6, 0x71, 0x9f, 0x32, 0x50, 0x21, 0xa8, 0x14, 0x54, 0x0c, 0xe7, 0x3c, 0xfd,
    0xa0, 0x8e, 0x50, 0x4f, 0xa8, 0x2b, 0xd4, 0x17, 0xea, 0x8c, 0xf6, 0x34, 0x87, 0xda, 0x43, 0x0d,
    0xa2, 0x16, 0x51, 0x93, 0xa8, 0x4d, 0xec, 0xc2, 0xaf, 0xf6, 0xe6, 0x53, 0x2e, 0x2a, 0x18, 0x95,
    0x8c, 0x8a, 0x46, 0x65, 0xa3, 0xc2, 0x51, 0xe9, 0xa8, 0x78, 0x54, 0x3e, 0x2a, 0x20, 0x95, 0x90,
    0x8a, 0x48, 0x65, 0xa4, 0x42, 0x52, 0x29, 0xa9, 0x98, 0x54, 0x4e, 0x4f, 0xc6, 0x9d, 0xa7, 0xa7,
    0xd4, 0x55, 0xea, 0x2b, 0x75, 0x96, 0x7a, 0x4b, 0xdd, 0x65, 0xf4, 0x94, 0xfc, 0xde, 0x5e, 0xb7,
    0xd7, 0xfb, 0x54, 0x9a, 0x6a, 0x6d, 0x3e, 0x81, 0x7c, 0x9e, 0x8a, 0x53, 0xcd, 0xa9, 0xea, 0x54,
    0x77, 0xaa, 0x3c, 0xd5, 0x9e, 0xaa, 0x4f, 0xf5, 0xa7, 0x0a, 0x54, 0x0d, 0xaa, 0x0a, 0x55, 0x87,
    0xaa, 0x44, 0xd5, 0xa2, 0xaa, 0x51, 0xf5, 0xa8, 0x8a, 0x54, 0x4d, 0x1a, 0x3a, 0xa7, 0x83, 0x46,
    0x63, 0xb0, 0x9a, 0x53, 0xed, 0xa9, 0x06, 0x55, 0x8b, 0xaa, 0x49, 0x9f, 0x36, 0xfd, 0x9e, 0x52,
    0x55, 0xb1, 0xaa, 0x5c, 0x55, 0xb0, 0x2a, 0x59, 0x15, 0xad, 0xca, 0x56, 0x85, 0xab, 0xd2, 0x55,
    0xf1, 0x2a, 0x02, 0x6d, 0x5d, 0xe8, 0x60, 0xf5, 0xb0, 0xba, 0x58, 0x7d, 0xac, 0x4e, 0x56, 0x2f,
    0xdf, 0xf5, 0xd3, 0xcf, 0xea, 0x68, 0xf5, 0x74, 0xad, 0x4f, 0x5d, 0xab, 0xb2, 0x55, 0xdb, 0x98,
    0xa7, 0xf6, 0x56, 0x83, 0xab, 0xc5, 0xd5, 0xe4, 0x6a, 0x73, 0x35, 0xba, 0x5a, 0x5d, 0xcd, 0xae,
    0x16, 0x51, 0xc1, 0x3f, 0xc5, 0xf6, 0x53, 0xf6, 0xf6, 0x3e, 0x36, 0x5a, 0x2f, 0x75, 0xfe, 0xf4,
    0x7f, 0x7f, 0x34, 0x20, 0x15, 0x48, 0x07, 0x52, 0x82, 0xb4, 0x20, 0x35, 0x48, 0x0f, 0x52, 0x84,
    0x34, 0x21, 0x55, 0xc8, 0x34, 0xab, 0x3d, 0xd6, 0x90, 0x39, 0x64, 0x0f, 0x19, 0x64, 0xed, 0x47,
    0x24, 0xfb, 0xa9, 0x84, 0xfa, 0x48, 0x45, 0x62, 0x91, 0x5c, 0x9c, 0x4a, 0x16, 0x3e, 0xe7, 0xc9,
    0x35, 0x63, 0xfc, 0x38, 0x47, 0xde, 0xa1, 0x63, 0x49, 0x3f, 0x52, 0x90, 0x34, 0x24, 0x15, 0x49,
    0x47, 0x52, 0x92, 0xb4, 0x74, 0xc7, 0x63, 0x27, 0x19, 0x4a, 0x96, 0x5a, 0x7f, 0x6c, 0x25, 0x63,
    0xc9, 0x5a, 0x32, 0x97, 0xec, 0x45, 0x62, 0x48, 0x62, 0x12, 0xd9, 0x7e, 0x5a, 0xf2, 0x47, 0x6a,
    0x12, 0x9b, 0xe4, 0x26, 0xc1, 0x49, 0x72, 0x12, 0x9d, 0x64, 0x27, 0xe1, 0x8d, 0xfd, 0x78, 0xef,
    0xbe, 0x84, 0xa8, 0x8f, 0x03, 0xe5, 0xc1, 0xf5, 0xc7, 0x87, 0x72, 0xa2, 0xbc, 0x28, 0x37, 0x3e,
    0x7e, 0x64, 0x9d, 0x3c, 0x29, 0x57, 0xca, 0x97, 0x8f, 0x33, 0xcd, 0x74, 0xea, 0xfe, 0xf1, 0xa7,
    0x1c, 0xda, 0x7e, 0x5c, 0xca, 0x15, 0x97, 0xda, 0x51, 0x60, 0x75, 0x09, 0x09, 0x00, 0xc5, 0xd6,
    0xf2, 0x85, 0x66, 0x43, 0xb3, 0xa1, 0xd9, 0xd0, 0x6c, 0x68, 0x36, 0x34, 0x1b, 0x9a, 0x0d, 0xcd,
    0x86, 0x66, 0x43, 0xb3, 0xa1, 0xd9, 0xd0, 0x6c, 0x68, 0x36, 0x34, 0x1b, 0x9a, 0x0d, 0xcd, 0x86,
    0x66, 0x43, 0xb3, 0xa1, 0xd9, 0xd0, 0x6c, 0x68, 0x36, 0x34, 0x1b, 0x9a, 0x0d, 0xcd, 0x86, 0x66,
    0x43, 0xb3, 0xa1, 0xd9, 0xd0, 0x6c, 0x68, 0x36, 0x34, 0x1b, 0x9a, 0x0d, 0xcd, 0x86, 0x66, 0x43,
    0xb3, 0xa1, 0xd9, 0xd0, 0x6c, 0x68, 0x36, 0x34, 0x1b, 0x9a, 0x0d, 0xcd, 0x86, 0x66, 0x43, 0xb3,
    0xa1, 0xd9, 0xd0, 0x6c, 0x68, 0x36, 0x34, 0x1b, 0x9a, 0x0d, 0xcd, 0x86, 0x66, 0x43, 0xb3, 0xa1,
    0xd9, 0xd0, 0x6c, 0x68, 0x36, 0x34, 0x1b, 0x9a, 0x0d, 0xcd, 0x86, 0x66, 0x43, 0xb3, 0xa1, 0xd9,
    0xd0, 0x6c, 0x68, 0x36, 0x34, 0x1b, 0x9a, 0x0d, 0xcd, 0x86, 0x66, 0x43, 0xb3, 0xa1, 0xd9, 0xd0,
    0x6c, 0x68, 0x36, 0x34, 0x1b, 0x9a, 0x0d, 0xcd, 0x86, 0x66, 0x43, 0xb3, 0xa1, 0xd9, 0xd0, 0x6c,
    0x68, 0x36, 0x34, 0x1b, 0x9a, 0x0d, 0xcd, 0x86, 0x66, 0x43, 0xb3, 0xa1, 0xd9, 0xd0, 0x6c, 0x68,
    0x36, 0x34, 0x1b, 0x9a, 0x0d, 0xcd, 0x86, 0x66, 0x43, 0xb3, 0xa1, 0xd9, 0xd0, 0x6c, 0x68, 0x36,
    0x34, 0x1b, 0x9a, 0x0d, 0xcd, 0x86, 0x66, 0x43, 0xb3, 0xa1, 0xd9, 0xd0, 0x6c, 0x68, 0x36, 0x34,
    0x1b, 0x9a, 0x0d, 0xcd, 0x86, 0x66, 0x43, 0xb3, 0xa1, 0xd9, 0xd0, 0x6c, 0x68, 0x36, 0x34, 0x1b,
    0x9a, 0x0d, 0xcd, 0x86, 0x66, 0x43, 0xb3, 0xa1, 0xd9, 0xd0, 0x6c, 0x68, 0x36, 0x34, 0x1b, 0x9a,
    0x0d, 0xcd, 0x86, 0x66, 0x43, 0xb3, 0xa1, 0xd9, 0xd0, 0x6c, 0x68, 0x36, 0x34, 0x1b, 0x9a, 0x0d,
    0xcd, 0x86, 0x66, 0x43, 0xb3, 0xa1, 0xd9, 0xd0, 0x6c, 0x68, 0x36, 0x34, 0x1b, 0x9a, 0x0d, 0xcd,
    0x86, 0x66, 0x43, 0xb3, 0xa1, 0xd9, 0xd0, 0x6c, 0x68, 0x36, 0x34, 0x1b, 0x9a, 0x0d, 0xcd, 0x86,
    0x66, 0x43, 0xb3, 0xa1, 0xd9, 0xd0, 0x6c, 0x68, 0x36, 0x34, 0x1b, 0x9a, 0x0d, 0xcd, 0x86, 0x66,
    0x43, 0xb3, 0xa1, 0xd9, 0xd0, 0x6c, 0x68, 0x36, 0x34, 0x1b, 0x9a, 0x0d, 0xcd, 0x86, 0x66, 0x43,
    0xb3, 0xa1, 0xd9, 0xd0, 0x6c, 0x68, 0xf6, 0xbf, 0xa4, 0xd9, 0x7f, 0x50, 0x4b, 0x01, 0x02, 0x1e,
    0x03, 0x14, 0x00, 0x00, 0x00, 0x08, 0x00, 0x7d, 0x69, 0x8d, 0x4c, 0x4c, 0x64, 0x24, 0xec, 0x82,
    0x08, 0x00, 0x00, 0xce, 0xb5, 0x00, 0x00, 0x0b, 0x00, 0x00, 0x00, 0x00, 0x00, 0x00, 0x00, 0x00,
    0x00, 0x00, 0x00, 0xa4, 0x81, 0x00, 0x00, 0x00, 0x00, 0x6e, 0x75, 0x6d, 0x62, 0x65, 0x72, 0x73,
    0x2e, 0x74, 0x78, 0x74, 0x50, 0x4b, 0x05, 0x06, 0x00, 0x00, 0x00, 0x00, 0x01, 0x00, 0x01, 0x00,
    0x39, 0x00, 0x00, 0x00, 0xab, 0x08, 0x00, 0x00, 0x00, 0x00,
];

const NUMBERS_GZ: &[u8] = &[
    0x1f, 0x8b, 0x08, 0x08, 0xb5, 0x38, 0xd4, 0x5a, 0x00, 0x03, 0x6e, 0x75, 0x6d, 0x62, 0x65, 0x72,
    0x73, 0x2e, 0x74, 0x78, 0x74, 0x00, 0xed, 0x97, 0xd9, 0x71, 0x24, 0x21, 0x10, 0x05, 0xff, 0xb1,
    0xa6, 0xb9, 0xc1, 0x7f, 0xc7, 0x36, 0x93, 0x91, 0x13, 0x1b, 0xf1, 0x62, 0xb5, 0x31, 0xd2, 0x34,
    0x0d, 0x45, 0x9d, 0x2f, 0xbf, 0x52, 0xcb, 0x28, 0xb7, 0xd4, 0x55, 0xda, 0x2c, 0x7d, 0x95, 0x71,
    0xcb, 0x1a, 0xe5, 0xd4, 0x52, 0xbf, 0xaf, 0xd4, 0xc6, 0xe7, 0x18, 0x3c, 0x65, 0xc5, 0x65, 0x09,
    0x6b, 0xda, 0xe4, 0xf3, 0xdc, 0xd2, 0xdb, 0x60, 0x3d, 0x6f, 0xb3, 0x6e, 0x0c, 0x3e, 0xcf, 0x28,
    0xb3, 0xdd, 0x32, 0xf7, 0x2a, 0x8b, 0x75, 0x8b, 0xcf, 0xcd, 0xdf, 0x9b, 0xef, 0x0f, 0xcf, 0x2f,
    0xeb, 0xae, 0xeb, 0x77, 0xa9, 0xb5, 0x95, 0xba, 0x6f, 0x69, 0xe3, 0x94, 0x5e, 0xd9, 0xea, 0xb6,
    0x32, 0xd6, 0x2e, 0x93, 0xa3, 0x56, 0xeb, 0x65, 0x7f, 0x83, 0xd7, 0x76, 0x39, 0xbb, 0x95, 0x3b,
    0xd9, 0x02, 0x2b, 0x56, 0xe3, 0x64, 0x2c, 0x9c, 0x9e, 0xe6, 0x52, 0x4e, 0xe1, 0x73, 0xf3, 0xf7,
    0xe1, 0xfb, 0xcb, 0xf3, 0x3b, 0x4a, 0xfb, 0x58, 0x52, 0x4f, 0x19, 0xbd, 0x97, 0xc9, 0xa3, 0x85,
    0xe1, 0xfb, 0x72, 0x70, 0xed, 0x85, 0xb3, 0xeb, 0xf1, 0xc0, 0xcd, 0x0e, 0xa7, 0x4c, 0xee, 0xb8,
    0xb9, 0xf6, 0x99, 0xbd, 0xd4, 0xc9, 0x0f, 0xd7, 0xba, 0x97, 0x47, 0x5c, 0xe3, 0xf2, 0x68, 0xb0,
    0x31, 0x9f, 0x98, 0xd5, 0x5a, 0x2b, 0x1d, 0x73, 0x67, 0x3f, 0x65, 0xb1, 0xe4, 0x70, 0x16, 0x7b,
    0x37, 0x36, 0xea, 0x67, 0x71, 0x0e, 0x66, 0x74, 0xce, 0xe0, 0xec, 0xca, 0xff, 0xc6, 0x85, 0xc7,
    0xc2, 0x01, 0x1c, 0x72, 0xb0, 0x63, 0xf4, 0xd2, 0x3a, 0x17, 0x6c, 0x9a, 0xc0, 0x79, 0xb5, 0x62,
    0x03, 0x5f, 0x71, 0x11, 0x3e, 0x57, 0xc7, 0x3d, 0x1d, 0xa7, 0xe3, 0x8e, 0x8d, 0xe1, 0x78, 0x76,
    0x7f, 0xdc, 0x85, 0xcd, 0x2b, 0x1b, 0x77, 0xbc, 0x38, 0x2f, 0xae, 0x68, 0x5c, 0xe6, 0x60, 0xe1,
    0xc4, 0xc9, 0x78, 0x87, 0x2b, 0xb3, 0x4f, 0xc3, 0x0b, 0xe3, 0xe0, 0x30, 0x2c, 0xbc, 0x8b, 0x73,
    0xf0, 0xf7, 0xd8, 0x3c, 0x26, 0x6e, 0x77, 0x63, 0x22, 0x97, 0x19, 0x57, 0x2f, 0x71, 0x03, 0x1c,
    0xc8, 0x7d, 0x26, 0xbf, 0x1e, 0xef, 0xfb, 0x75, 0x36, 0x67, 0x53, 0xce, 0xbe, 0x95, 0xa5, 0x9f,
    0x5b, 0x71, 0xef, 0xc9, 0x25, 0xbf, 0xd2, 0x89, 0xd8, 0xe2, 0xa0, 0xfb, 0x61, 0x17, 0x21, 0x9a,
    0xdf, 0xc1, 0x91, 0x64, 0x01, 0xaf, 0x0e, 0x96, 0xef, 0x0f, 0xbf, 0x10, 0xb9, 0xee, 0x0e, 0xbd,
    0x5c, 0x5c, 0xd3, 0xb0, 0x6f, 0x6e, 0x4c, 0xc5, 0xc9, 0x8d, 0x57, 0x27, 0x3b, 0x1f, 0xbc, 0x5a,
    0x2f, 0xdf, 0xb3, 0xc5, 0x19, 0x44, 0x9d, 0x58, 0x4c, 0xae, 0x76, 0x30, 0xbc, 0x91, 0x10, 0x93,
    0x77, 0x8f, 0xf7, 0x6a, 0xac, 0xc1, 0xd5, 0x97, 0x63, 0x1a, 0x17, 0x58, 0xac, 0xbf, 0x6b, 0xb1,
    0x3f, 0xd6, 0xe0, 0x12, 0xdc, 0x39, 0xf0, 0xc0, 0xde, 0x7a, 0x05, 0x6b, 0xf8, 0xfd, 0x70, 0xef,
    0xb6, 0x75, 0x20, 0x31, 0xc5, 0x97, 0x1f, 0xb6, 0xf3, 0x66, 0x25, 0x67, 0x26, 0x49, 0x7c, 0xd9,
    0xb1, 0x73, 0xe7, 0xed, 0x5d, 0x71, 0xfd, 0xac, 0xc6, 0x13, 0x8b, 0xab, 0xf9, 0x85, 0x55, 0x5a,
    0xa8, 0x9b, 0x9a, 0x97, 0xc5, 0x65, 0xe6, 0xe5, 0xc6, 0xbb, 0x07, 0x2b, 0xf1, 0x1a, 0x19, 0x7c,
    0xbc, 0x94, 0xd9, 0x7c, 0xc9, 0x90, 0xce, 0x23, 0x53, 0x84, 0x27, 0x98, 0x3f, 0xc9, 0x7d, 0x36,
    0xd9, 0x9d, 0x97, 0x78, 0xba, 0x38, 0x8c, 0x5b, 0x4f, 0x1e, 0xdd, 0x65, 0xf6, 0x11, 0x53, 0x12,
    0xa6, 0x0f, 0xb3, 0xcf, 0x4d, 0xb0, 0xc3, 0xd2, 0xc1, 0xe7, 0x0b, 0xe7, 0x56, 0x3c, 0xb1, 0xf8,
    0x9d, 0x8b, 0x4d, 0x76, 0x32, 0xe3, 0xb4, 0x0a, 0xff, 0x93, 0x45, 0x44, 0x76, 0x98, 0xd0, 0xec,
    0x31, 0x30, 0xe0, 0x62, 0xe3, 0x68, 0xc6, 0x88, 0xf8, 0x70, 0xcc, 0xc5, 0x33, 0xa3, 0xfb, 0x9c,
    0x3b, 0x93, 0x85, 0x77, 0x18, 0x72, 0x22, 0x60, 0xa2, 0x50, 0x37, 0xbc, 0x36, 0xc9, 0x38, 0x1c,
    0x35, 0xaf, 0x05, 0x8c, 0xff, 0x06, 0x1e, 0xa0, 0x9a, 0xb6, 0xbe, 0xe5, 0xb8, 0xad, 0x65, 0xcd,
    0xd8, 0x60, 0x69, 0xb5, 0x6c, 0xb8, 0x9a, 0x96, 0xf1, 0x43, 0xe6, 0x55, 0xdc, 0xbe, 0x8d, 0xba,
    0xa1, 0xb4, 0xc6, 0xa9, 0xfb, 0x6b, 0xc5, 0xe1, 0xc4, 0x8a, 0x93, 0x17, 0xaf, 0x35, 0x8b, 0x83,
    0xdf, 0x3b, 0xdb, 0xde, 0xa9, 0xc3, 0x79, 0x8f, 0x93, 0xb7, 0xe5, 0xc7, 0xf7, 0x07, 0x63, 0x86,
    0xf5, 0xcf, 0xe9, 0x84, 0xab, 0x11, 0xbe, 0x63, 0xe1, 0x72, 0x77, 0x5c, 0xb1, 0xcc, 0x54, 0x8c,
    0x38, 0xdb, 0xec, 0x24, 0x64, 0x5c, 0x6d, 0x5b, 0x4c, 0xd8, 0x7d, 0xad, 0x4c, 0x5e, 0x6b, 0x86,
    0xcb, 0xab, 0x4f, 0x4f, 0xe0, 0x31, 0x09, 0x8c, 0xed, 0x97, 0x08, 0x2d, 0xbe, 0x6e, 0x94, 0xcb,
    0xc1, 0xb0, 0xc9, 0xf2, 0x86, 0xd1, 0x07, 0x8f, 0x0c, 0xc3, 0x44, 0x31, 0x6f, 0xbb, 0x89, 0x79,
    0x47, 0x51, 0x6c, 0x72, 0x6a, 0x18, 0x24, 0x2e, 0xb4, 0x97, 0x15, 0xc7, 0xf7, 0x55, 0x1f, 0xb8,
    0xb5, 0x61, 0xe5, 0x92, 0x36, 0x30, 0xa2, 0x57, 0x39, 0xf6, 0xbc, 0xd6, 0x62, 0x75, 0x72, 0x2c,
    0x67, 0x2e, 0xcf, 0x65, 0x3d, 0x2d, 0x65, 0x7f, 0xf6, 0x3a, 0x2b, 0x80, 0xa3, 0x3f, 0x83, 0x4d,
    0x41, 0x19, 0x20, 0x52, 0x78, 0x4d, 0x8b, 0x89, 0xa0, 0xf8, 0x08, 0x77, 0x10, 0x9b, 0xb6, 0x6c,
    0x77, 0x16, 0xb3, 0x1d, 0x80, 0xd7, 0x74, 0x27, 0x97, 0x5d, 0x58, 0xd0, 0x8f, 0x91, 0xb1, 0xf5,
    0xe0, 0x4e, 0xdd, 0xa8, 0x25, 0x9f, 0x55, 0x41, 0x45, 0x90, 0x2f, 0x1d, 0x17, 0x57, 0x53, 0x7c,
    0x59, 0x84, 0x38, 0x06, 0x0f, 0x54, 0x7c, 0x78, 0xb1, 0x64, 0x61, 0xe9, 0xa0, 0x43, 0x37, 0x5c,
    0xee, 0x05, 0x29, 0xd9, 0xb9, 0xec, 0x8b, 0x74, 0x37, 0x4b, 0xf9, 0x33, 0x5f, 0x59, 0x82, 0x13,
    0x1a, 0x4b, 0xe9, 0x4f, 0xc7, 0xc0, 0x5a, 0x40, 0xaf, 0xc5, 0x98, 0xd6, 0x78, 0xde, 0x6e, 0x82,
    0x9b, 0x70, 0x61, 0xb7, 0x19, 0xdb, 0xbe, 0x38, 0x68, 0x0f, 0xfb, 0x37, 0x77, 0xe1, 0x22, 0x8d,
    0xbf, 0x71, 0xfe, 0x79, 0xe9, 0x60, 0xa5, 0xb2, 0x94, 0x80, 0x35, 0x6c, 0xc0, 0xb9, 0x87, 0xeb,
    0x6c, 0xcb, 0x4a, 0x47, 0x1a, 0x10, 0xde, 0xaa, 0x2f, 0xfd, 0x31, 0x1b, 0x6f, 0x2d, 0x9c, 0x39,
    0x87, 0x65, 0xc9, 0x2b, 0x9c, 0x56, 0xf1, 0x14, 0xff, 0x5e, 0xab, 0xf4, 0xd2, 0x26, 0xbb, 0xf3,
    0x86, 0xa2, 0xb0, 0xf0, 0xf8, 0xce, 0xae, 0x80, 0x49, 0xfb, 0x25, 0x08, 0x67, 0x98, 0x9d, 0x96,
    0xd9, 0xb4, 0xf1, 0x63, 0x22, 0xbf, 0xf3, 0xd5, 0x25, 0x38, 0xc7, 0xb2, 0x22, 0xad, 0x16, 0x67,
    0xcf, 0x63, 0xf2, 0x62, 0x83, 0x63, 0xa4, 0x9b, 0x6a, 0x76, 0x79, 0x9b, 0x23, 0x6e, 0xc5, 0x1d,
    0x43, 0x53, 0x39, 0x98, 0x4b, 0xee, 0x61, 0x2f, 0x71, 0x38, 0x91, 0x37, 0xf6, 0xaa, 0x6a, 0x9e,
    0x70, 0x0a, 0x2e, 0xeb, 0x5c, 0xa9, 0x5b, 0x1f, 0x8e, 0x99, 0x6a, 0x2e, 0x90, 0x27, 0xdc, 0x18,
    0x4f, 0xfa, 0x0d, 0xe7, 0x5a, 0x62, 0xe6, 0x27, 0xed, 0xe4, 0x1c, 0x67, 0x00, 0x9f, 0xfc, 0x7d,
    0xf0, 0xc1, 0x21, 0xeb, 0xb7, 0x7d, 0x1b, 0xe7, 0x6e, 0x9c, 0xbd, 0x4d, 0x42, 0x8a, 0x6a, 0x63,
    0xc0, 0xee, 0x7e, 0xf6, 0xbf, 0xff, 0x7f, 0xdf, 0xf9, 0xcc, 0x35, 0xae, 0xdd, 0xbf, 0x77, 0xdd,
    0xe3, 0xed, 0xe5, 0x9e, 0xeb, 0x77, 0x86, 0x67, 0xbd, 0x33, 0x39, 0xbb, 0x3d, 0x43, 0x30, 0x47,
    0xab, 0xb4, 0x4e, 0x2b, 0xb5, 0x56, 0xab, 0xb5, 0xde, 0x5b, 0x78, 0x1b, 0x6f, 0xe5, 0xed, 0xbc,
    0xa5, 0xb7, 0xf5, 0xd6, 0xde, 0x5e, 0x2f, 0xe8, 0x0d, 0x53, 0xb1, 0xfe, 0x7c, 0xa4, 0xaf, 0xf4,
    0xd9, 0x78, 0xfd, 0xfd, 0xe7, 0x4b, 0x7d, 0xaa, 0x6f, 0xf5, 0xb1, 0xbe, 0x36, 0x13, 0xf1, 0xbc,
    0x11, 0x30, 0x12, 0x46, 0xc4, 0xc8, 0x18, 0x21, 0x23, 0x65, 0xc4, 0xea, 0x2f, 0x7e, 0xc6, 0xd1,
    0x78, 0x1a, 0x57, 0xe3, 0x6b, 0x9c, 0x8d, 0xf7, 0x79, 0xb1, 0x37, 0x07, 0xcc, 0x05, 0x73, 0x62,
    0xbd, 0x80, 0x9c, 0x97, 0x2b, 0xe6, 0x8c, 0xb9, 0x63, 0x0e, 0x99, 0x4b, 0xe6, 0x94, 0xb9, 0x65,
    0xab, 0x25, 0xd3, 0xcc, 0x38, 0x33, 0xcf, 0x0c, 0x34, 0x13, 0xe7, 0x7e, 0x79, 0x69, 0x7e, 0x9a,
    0xa7, 0xfb, 0x35, 0xfa, 0xfd, 0xf2, 0xd7, 0x3c, 0x36, 0x9f, 0xcd, 0x6b, 0xf3, 0xfb, 0x8d, 0x87,
    0x5f, 0xd6, 0x9b, 0xfd, 0x56, 0xc1, 0x59, 0xaf, 0x26, 0xac, 0x0d, 0x6b, 0xc4, 0x5a, 0xb1, 0x66,
    0xac, 0x1d, 0x6b, 0xc8, 0x5a, 0xb2, 0xa8, 0x47, 0x7b, 0x15, 0x66, 0xa5, 0x59, 0x71, 0x56, 0x9e,
    0x15, 0x68, 0x25, 0x5a, 0x91, 0x56, 0xa6, 0x15, 0x6a, 0xa5, 0x5a, 0xb1, 0x56, 0xae, 0x15, 0x6c,
    0x25, 0x5b, 0xd1, 0x56, 0xb6, 0x15, 0x6e, 0xa5, 0x5b, 0xf1, 0x56, 0xbe, 0x1d, 0xc0, 0x4e, 0x60,
    0x47, 0xb0, 0x33, 0xd8, 0x21, 0xec, 0x14, 0x0e, 0x24, 0x5b, 0xda, 0xec, 0xaf, 0x8f, 0xd8, 0x4f,
    0xec, 0x2b, 0xf6, 0x17, 0xfb, 0x8c, 0xfd, 0xc6, 0xbe, 0x53, 0xcf, 0xeb, 0x42, 0x76, 0x23, 0xbb,
    0x92, 0xdd, 0x69, 0xbe, 0x42, 0xd8, 0xaf, 0x6b, 0xd9, 0xbd, 0xec, 0x62, 0x76, 0x33, 0xbb, 0x9a,
    0xdd, 0xcd, 0x2e, 0x67, 0xb7, 0xb3, 0xeb, 0xd9, 0xfd, 0xec, 0x82, 0x76, 0x43, 0xbb, 0xa2, 0xdd,
    0xd1, 0x2e, 0x69, 0xb7, 0xb4, 0x6b, 0xda, 0x3d, 0xed, 0xa2, 0x76, 0x53, 0xbb, 0xaa, 0xdd, 0x75,
    0x3d, 0x09, 0x31, 0x5f, 0xd7, 0xb5, 0xfb, 0xde, 0xf9, 0x7a, 0xb1, 0x3d, 0xd9, 0xde, 0x3c, 0x5f,
    0x3a, 0x9d, 0xd7, 0xb3, 0xed, 0xdd, 0xf6, 0x70, 0x7b, 0xb9, 0x3d, 0xdd, 0xde, 0x6e, 0x8f, 0xdf,
    0xed, 0x75, 0x7c, 0x3b, 0xbf, 0x13, 0xc0, 0x49, 0xa0, 0xb1, 0x7b, 0xbd, 0xf9, 0xe0, 0x9c, 0x70,
    0x5e, 0xd4, 0x37, 0xb1, 0xda, 0x9b, 0x23, 0xce, 0x13, 0xe7, 0x8a, 0xf3, 0xc5, 0x39, 0xe3, 0xbc,
    0x71, 0xee, 0x38, 0x7f, 0x9c, 0x43, 0xce, 0x23, 0xe7, 0x92, 0xf3, 0xc9, 0x39, 0xe5, 0xbc, 0xe2,
    0x20, 0xa7, 0x97, 0x53, 0xcc, 0x69, 0xe6, 0x54, 0x73, 0xba, 0x39, 0xe5, 0xde, 0xb4, 0xd3, 0x95,
    0x6c, 0xfb, 0xa6, 0xa0, 0x2a, 0xe3, 0x7e, 0x6f, 0x38, 0x62, 0xb7, 0x07, 0x7f, 0xe3, 0x4d, 0xce,
    0x37, 0x41, 0x9d, 0xa4, 0x4e, 0xd4, 0xa7, 0xcc, 0xe6, 0x6f, 0xd2, 0xbe, 0x89, 0xbb, 0x7e, 0x13,
    0xd8, 0x71, 0xf4, 0x1a, 0xfe, 0xf8, 0x4d, 0x68, 0x27, 0x35, 0x71, 0xde, 0x6f, 0x7a, 0x3b, 0xc4,
    0x39, 0x4e, 0xad, 0x82, 0x35, 0x6f, 0xc2, 0xaf, 0xef, 0x4d, 0xfc, 0x37, 0xf9, 0x55, 0x00, 0x76,
    0xf6, 0x71, 0x9f, 0x32, 0x50, 0x21, 0xa8, 0x14, 0x54, 0x0c, 0xe7, 0x3c, 0xfd, 0xa0, 0x8e, 0x50,
    0x4f, 0xa8, 0x2b, 0xd4, 0x17, 0xea, 0x8c, 0xf6, 0x34, 0x87, 0xda, 0x43, 0x0d, 0xa2, 0x16, 0x51,
    0x93, 0xa8, 0x4d, 0xec, 0xc2, 0xaf, 0xf6, 0xe6, 0x53, 0x2e, 0x2a, 0x18, 0x95, 0x8c, 0x8a, 0x46,
    0x65, 0xa3, 0xc2, 0x51, 0xe9, 0xa8, 0x78, 0x54, 0x3e, 0x2a, 0x20, 0x95, 0x90, 0x8a, 0x48, 0x65,
    0xa4, 0x42, 0x52, 0x29, 0xa9, 0x98, 0x54, 0x4e, 0x4f, 0xc6, 0x9d, 0xa7, 0xa7, 0xd4, 0x55, 0xea,
    0x2b, 0x75, 0x96, 0x7a, 0x4b, 0xdd, 0x65, 0xf4, 0x94, 0xfc, 0xde, 0x5e, 0xb7, 0xd7, 0xfb, 0x54,
    0x9a, 0x6a, 0x6d, 0x3e, 0x81, 0x7c, 0x9e, 0x8a, 0x53, 0xcd, 0xa9, 0xea, 0x54, 0x77, 0xaa, 0x3c,
    0xd5, 0x9e, 0xaa, 0x4f, 0xf5, 0xa7, 0x0a, 0x54, 0x0d, 0xaa, 0x0a, 0x55, 0x87, 0xaa, 0x44, 0xd5,
    0xa2, 0xaa, 0x51, 0xf5, 0xa8, 0x8a, 0x54, 0x4d, 0x1a, 0x3a, 0xa7, 0x83, 0x46, 0x63, 0xb0, 0x9a,
    0x53, 0xed, 0xa9, 0x06, 0x55, 0x8b, 0xaa, 0x49, 0x9f, 0x36, 0xfd, 0x9e, 0x52, 0x55, 0xb1, 0xaa,
    0x5c, 0x55, 0xb0, 0x2a, 0x59, 0x15, 0xad, 0xca, 0x56, 0x85, 0xab, 0xd2, 0x55, 0xf1, 0x2a, 0x02,
    0x6d, 0x5d, 0xe8, 0x60, 0xf5, 0xb0, 0xba, 0x58, 0x7d, 0xac, 0x4e, 0x56, 0x2f, 0xdf, 0xf5, 0xd3,
    0xcf, 0xea, 0x68, 0xf5, 0x74, 0xad, 0x4f, 0x5d, 0xab, 0xb2, 0x55, 0xdb, 0x98, 0xa7, 0xf6, 0x56,
    0x83, 0xab, 0xc5, 0xd5, 0xe4, 0x6a, 0x73, 0x35, 0xba, 0x5a, 0x5d, 0xcd, 0xae, 0x16, 0x51, 0xc1,
    0x3f, 0xc5, 0xf6, 0x53, 0xf6, 0xf6, 0x3e, 0x36, 0x5a, 0x2f, 0x75, 0xfe, 0xf4, 0x7f, 0x7f, 0x34,
    0x20, 0x15, 0x48, 0x07, 0x52, 0x82, 0xb4, 0x20, 0x35, 0x48, 0x0f, 0x52, 0x84, 0x34, 0x21, 0x55,
    0xc8, 0x34, 0xab, 0x3d, 0xd6, 0x90, 0x39, 0x64, 0x0f, 0x19, 0x64, 0xed, 0x47, 0x24, 0xfb, 0xa9,
    0x84, 0xfa, 0x48, 0x45, 0x62, 0x91, 0x5c, 0x9c, 0x4a, 0x16, 0x3e, 0xe7, 0xc9, 0x35, 0x63, 0xfc,
    0x38, 0x47, 0xde, 0xa1, 0x63, 0x49, 0x3f, 0x52, 0x90, 0x34, 0x24, 0x15, 0x49, 0x47, 0x52, 0x92,
    0xb4, 0x74, 0xc7, 0x63, 0x27, 0x19, 0x4a, 0x96, 0x5a, 0x7f, 0x6c, 0x25, 0x63, 0xc9, 0x5a, 0x32,
    0x97, 0xec, 0x45, 0x62, 0x48, 0x62, 0x12, 0xd9, 0x7e, 0x5a, 0xf2, 0x47, 0x6a, 0x12, 0x9b, 0xe4,
    0x26, 0xc1, 0x49, 0x72, 0x12, 0x9d, 0x64, 0x27, 0xe1, 0x8d, 0xfd, 0x78, 0xef, 0xbe, 0x84, 0xa8,
    0x8f, 0x03, 0xe5, 0xc1, 0xf5, 0xc7, 0x87, 0x72, 0xa2, 0xbc, 0x28, 0x37, 0x3e, 0x7e, 0x64, 0x9d,
    0x3c, 0x29, 0x57, 0xca, 0x97, 0x8f, 0x33, 0xcd, 0x74, 0xea, 0xfe, 0xf1, 0xa7, 0x1c, 0xda, 0x7e,
    0x5c, 0xca, 0x15, 0x97, 0xda, 0x51, 0x60, 0x75, 0x09, 0x09, 0x00, 0xc5, 0xd6, 0xf2, 0x85, 0x66,
    0x43, 0xb3, 0xa1, 0xd9, 0xd0, 0x6c, 0x68, 0x36, 0x34, 0x1b, 0x9a, 0x0d, 0xcd, 0x86, 0x66, 0x43,
    0xb3, 0xa1, 0xd9, 0xd0, 0x6c, 0x68, 0x36, 0x34, 0x1b, 0x9a, 0x0d, 0xcd, 0x86, 0x66, 0x43, 0xb3,
    0xa1, 0xd9, 0xd0, 0x6c, 0x68, 0x36, 0x34, 0x1b, 0x9a, 0x0d, 0xcd, 0x86, 0x66, 0x43, 0xb3, 0xa1,
    0xd9, 0xd0, 0x6c, 0x68, 0x36, 0x34, 0x1b, 0x9a, 0x0d, 0xcd, 0x86, 0x66, 0x43, 0xb3, 0xa1, 0xd9,
    0xd0, 0x6c, 0x68, 0x36, 0x34, 0x1b, 0x9a, 0x0d, 0xcd, 0x86, 0x66, 0x43, 0xb3, 0xa1, 0xd9, 0xd0,
    0x6c, 0x68, 0x36, 0x34, 0x1b, 0x9a, 0x0d, 0xcd, 0x86, 0x66, 0x43, 0xb3, 0xa1, 0xd9, 0xd0, 0x6c,
    0x68, 0x36, 0x34, 0x1b, 0x9a, 0x0d, 0xcd, 0x86, 0x66, 0x43, 0xb3, 0xa1, 0xd9, 0xd0, 0x6c, 0x68,
    0x36, 0x34, 0x1b, 0x9a, 0x0d, 0xcd, 0x86, 0x66, 0x43, 0xb3, 0xa1, 0xd9, 0xd0, 0x6c, 0x68, 0x36,
    0x34, 0x1b, 0x9a, 0x0d, 0xcd, 0x86, 0x66, 0x43, 0xb3, 0xa1, 0xd9, 0xd0, 0x6c, 0x68, 0x36, 0x34,
    0x1b, 0x9a, 0x0d, 0xcd, 0x86, 0x66, 0x43, 0xb3, 0xa1, 0xd9, 0xd0, 0x6c, 0x68, 0x36, 0x34, 0x1b,
    0x9a, 0x0d, 0xcd, 0x86, 0x66, 0x43, 0xb3, 0xa1, 0xd9, 0xd0, 0x6c, 0x68, 0x36, 0x34, 0x1b, 0x9a,
    0x0d, 0xcd, 0x86, 0x66, 0x43, 0xb3, 0xa1, 0xd9, 0xd0, 0x6c, 0x68, 0x36, 0x34, 0x1b, 0x9a, 0x0d,
    0xcd, 0x86, 0x66, 0x43, 0xb3, 0xa1, 0xd9, 0xd0, 0x6c, 0x68, 0x36, 0x34, 0x1b, 0x9a, 0x0d, 0xcd,
    0x86, 0x66, 0x43, 0xb3, 0xa1, 0xd9, 0xd0, 0x6c, 0x68, 0x36, 0x34, 0x1b, 0x9a, 0x0d, 0xcd, 0x86,
    0x66, 0x43, 0xb3, 0xa1, 0xd9, 0xd0, 0x6c, 0x68, 0x36, 0x34, 0x1b, 0x9a, 0x0d, 0xcd, 0x86, 0x66,
    0x43, 0xb3, 0xa1, 0xd9, 0xd0, 0x6c, 0x68, 0x36, 0x34, 0x1b, 0x9a, 0x0d, 0xcd, 0x86, 0x66, 0x43,
    0xb3, 0xa1, 0xd9, 0xd0, 0x6c, 0x68, 0x36, 0x34, 0x1b, 0x9a, 0x0d, 0xcd, 0x86, 0x66, 0x43, 0xb3,
    0xa1, 0xd9, 0xd0, 0x6c, 0x68, 0x36, 0x34, 0x1b, 0x9a, 0x0d, 0xcd, 0x86, 0x66, 0x43, 0xb3, 0xa1,
    0xd9, 0xd0, 0x6c, 0x68, 0x36, 0x34, 0x1b, 0x9a, 0x0d, 0xcd, 0x86, 0x66, 0x43, 0xb3, 0xa1, 0xd9,
    0xd0, 0x6c, 0x68, 0xf6, 0xbf, 0xa4, 0xd9, 0x7f, 0x4c, 0x64, 0x24, 0xec, 0xce, 0xb5, 0x00, 0x00,
];

fn text_a() -> Vec<u8> {
    let mut text = Vec::new();
    for i in 0..40 {
        text.extend_from_slice(format!("This is file a, line {} of the text.\n", i).as_bytes());
    }
    text
}

fn text_b() -> Vec<u8> {
    let mut text = Vec::new();
    for i in 0..30 {
        text.extend_from_slice(format!("And this is file b: {} bottles on the wall.\n", 99 - i).as_bytes());
    }
    text
}

fn numbers() -> Vec<u8> {
    let mut text = Vec::new();
    for i in 0..12000u64 {
        text.extend_from_slice(format!("{}\n", (i * i) % 977).as_bytes());
    }
    text
}

/// Reads an archive of either format that comes in the given pieces, to its
/// end, and returns each file's name and bytes.
fn read_pieces(pieces: &[&[u8]]) -> Result<Vec<(Option<Vec<u8>>, Vec<u8>)>, Error> {
    let mut files = Vec::new();
    let mut file = start_stream();
    let mut bytes = Vec::new();
    let mut waiting: Option<File> = None;
    for piece in pieces {
        let mut input: &[u8] = piece;
        if input.is_empty() {
            continue;
        }
        if let Some(next_file) = waiting.take() {
            assert!(matches!(file.read(b""), Ok(State::EndOfFile)));
            file = next_file;
        }
        loop {
            let mut next: Option<File> = None;
            match file.read(input)? {
                State::NeedsInput => break,
                State::HasOutput { unparsed_input, output } => {
                    assert!(!output.is_empty());
                    bytes.extend_from_slice(output);
                    input = unparsed_input;
                }
                State::NextFile { unparsed_input, next_file } => {
                    input = unparsed_input;
                    next = Some(next_file);
                }
                State::NeedsInputOrEof(next_file) => {
                    files.push((file.name().map(|n| n.to_vec()), std::mem::take(&mut bytes)));
                    waiting = Some(File::GZip(next_file));
                    break;
                }
                State::EndOfFile => {
                    files.push((file.name().map(|n| n.to_vec()), std::mem::take(&mut bytes)));
                    return Ok(files);
                }
            }
            if let Some(next_file) = next {
                files.push((file.name().map(|n| n.to_vec()), std::mem::take(&mut bytes)));
                file = next_file;
            }
        }
    }
    match waiting {
        Some(_) => {
            assert!(matches!(file.read(b""), Ok(State::EndOfFile)));
            Ok(files)
        }
        None => panic!("The archive has not ended."),
    }
}

fn read_in_chunks(archive: &[u8], size: usize) -> Result<Vec<(Option<Vec<u8>>, Vec<u8>)>, Error> {
    let pieces: Vec<&[u8]> = archive.chunks(size).collect();
    read_pieces(&pieces)
}

fn ab() -> Vec<(Option<Vec<u8>>, Vec<u8>)> {
    vec![(Some(b"zipped_a.txt".to_vec()), text_a()), (Some(b"zipped_b.txt".to_vec()), text_b())]
}

#[test]
fn test_hilevel_api_agnostic() {
    {
        let mut zip_file_1 = start_stream();
        let mut out = Vec::new();

        let res = zip_file_1
            .read_internal_iter(ZIPPED_A_GZ, |bytes| out.extend_from_slice(bytes))
            .expect("Should succeed");

        if let State::NeedsInputOrEof(_) = res {
        } else {
            panic!("The first file should return NeedsInputOrEof!");
        }
        assert_eq!(out, text_a());
        assert!(matches!(zip_file_1, File::GZip(_)));

        let eof = zip_file_1
            .read_internal_iter(&[][..], |_| panic!("Should be EOF"))
            .expect("Should succeed");

        if let State::EndOfFile = eof {
        } else {
            panic!("The first file should be at EOF!");
        }
    }
    {
        let mut zip_file_1 = start_stream();
        let mut out = Vec::new();

        let res = zip_file_1
            .read_internal_iter(ZIPPED_AB_ZIP, |bytes| out.extend_from_slice(bytes))
            .expect("Should succeed");

        let (unparsed, mut zip_file_2) = if let State::NextFile {
            unparsed_input,
            next_file,
        } = res
        {
            (unparsed_input, next_file)
        } else {
            panic!("Should have another file.");
        };
        assert_eq!(out, text_a());
        assert!(matches!(zip_file_1, File::Zip(_)));
        assert_eq!(zip_file_1.name(), Some(&b"zipped_a.txt"[..]));

        let eof = zip_file_1
            .read_internal_iter(&[][..], |_| panic!("Should be EOF"))
            .expect("Should succeed");

        if let State::EndOfFile = eof {
        } else {
            panic!("The first file should be at EOF");
        }

        let mut out = Vec::new();
        let res = zip_file_2
            .read_internal_iter(unparsed, |bytes| out.extend_from_slice(bytes))
            .expect("Should succeed");

        if let State::EndOfFile = res {
        } else {
            panic!("Should be the final file.");
        }
        assert_eq!(out, text_b());
        assert_eq!(zip_file_2.name(), Some(&b"zipped_b.txt"[..]));
    }
}

#[test]
fn either_format_in_chunks_of_any_size() {
    let a = vec![(Some(b"zipped_a.txt".to_vec()), text_a())];
    assert_eq!(read_pieces(&[ZIPPED_A_GZ]), Ok(a.clone()));
    assert_eq!(read_pieces(&[ZIPPED_AB_ZIP]), Ok(ab()));
    for size in 1..=ZIPPED_A_GZ.len() {
        assert!(read_in_chunks(ZIPPED_A_GZ, size) == Ok(a.clone()), "chunks of {}", size);
    }
    for size in 1..=ZIPPED_AB_ZIP.len() {
        assert!(read_in_chunks(ZIPPED_AB_ZIP, size) == Ok(ab()), "chunks of {}", size);
    }
    let numbers = vec![(Some(b"numbers.txt".to_vec()), numbers())];
    for size in [1, 2, 3, 4, 5, 50, 700, 2000] {
        assert!(read_in_chunks(NUMBERS_ZIP, size) == Ok(numbers.clone()), "chunks of {}", size);
        assert!(read_in_chunks(NUMBERS_GZ, size) == Ok(numbers.clone()), "chunks of {}", size);
    }
}

#[test]
fn the_format_shows_in_four_bytes() {
    let mut file = start_stream();
    assert!(matches!(file, File::Init(_)));
    assert_eq!(file.name(), None);
    assert!(matches!(file.read(b""), Ok(State::NeedsInput)));
    assert!(matches!(file.read(&ZIPPED_A_GZ[..1]), Ok(State::NeedsInput)));
    assert!(matches!(file.read(&ZIPPED_A_GZ[1..3]), Ok(State::NeedsInput)));
    assert!(matches!(&file, File::Init(seen) if seen == &[0x1f, 0x8b, 0x08]));
    assert!(matches!(file.read(&ZIPPED_A_GZ[3..4]), Ok(State::NeedsInput)));
    assert!(matches!(file, File::GZip(_)));
    match file.read(&ZIPPED_A_GZ[4..]).unwrap() {
        State::HasOutput { unparsed_input, output } => {
            assert_eq!(output, &text_a()[..]);
            assert_eq!(unparsed_input.len(), 8);
        }
        _ => panic!("There should be output."),
    }
    assert_eq!(file.get_output(), &text_a()[..]);
    assert_eq!(file.name(), Some(&b"zipped_a.txt"[..]));

    let mut file = start_stream();
    assert!(matches!(file.read(&ZIPPED_AB_ZIP[..3]), Ok(State::NeedsInput)));
    assert!(matches!(file, File::Init(_)));
    match file.read(&ZIPPED_AB_ZIP[3..]).unwrap() {
        State::HasOutput { unparsed_input, output } => {
            assert_eq!(output, &text_a()[..]);
            assert_eq!(unparsed_input, &ZIPPED_AB_ZIP[187..]);
        }
        _ => panic!("There should be output."),
    }
    assert!(matches!(file, File::Zip(_)));
    assert_eq!(file.get_output(), &text_a()[..]);
}

#[test]
fn what_is_no_archive() {
    assert_eq!(read_pieces(&[b"PK\x05\x06 and so on"]), Err(Error::UnknownFileFormat));
    assert_eq!(read_pieces(&[b"\x1f\x8b\x09\x00 and so on"]), Err(Error::UnknownFileFormat));
    assert_eq!(read_pieces(&[b"P", b"K", b"\x03", b"\x05"]), Err(Error::UnknownFileFormat));
    assert_eq!(read_pieces(&[b"abcd"]), Err(Error::UnknownFileFormat));
    // A GZIP member with a reserved flag.
    assert_eq!(
        read_pieces(&[b"\x1f\x8b\x08\x20 and so on"]),
        Err(Error::GZip(GZipError::InvalidMemberHeader))
    );
    // Errors of the formats come with the format's name.
    let mut archive = ZIPPED_AB_ZIP.to_vec();
    archive[42] = 0x07;
    assert_eq!(read_pieces(&[&archive]), Err(Error::Zip(ZipError::InvalidDeflateStream)));
    let mut archive = ZIPPED_A_GZ.to_vec();
    archive[23] = 0x07;
    assert_eq!(read_pieces(&[&archive]), Err(Error::GZip(GZipError::InvalidDeflateStream)));
    assert_eq!(Error::from(ZipError::InvalidDataDescriptor), Error::Zip(ZipError::InvalidDataDescriptor));
    assert_eq!(Error::from(GZipError::InvalidFooter), Error::GZip(GZipError::InvalidFooter));
}

#[test]
fn headers_only_of_either_start() {
    let mut file = start_stream();
    assert!(matches!(file.read_headers(&ZIPPED_AB_ZIP[..2]), Ok(ReadHeadersResult::NeedsInput)));
    assert!(matches!(file.read_headers(&ZIPPED_AB_ZIP[2..30]), Ok(ReadHeadersResult::NeedsInput)));
    assert_eq!(file.name(), None);
    match file.read_headers(&ZIPPED_AB_ZIP[30..100]).unwrap() {
        ReadHeadersResult::Done { unparsed } => assert_eq!(unparsed, &ZIPPED_AB_ZIP[42..100]),
        ReadHeadersResult::NeedsInput => panic!("The header is all there."),
    }
    assert_eq!(file.name(), Some(&b"zipped_a.txt"[..]));
    let mut file = start_stream();
    assert!(matches!(file.read_headers(b"abcd"), Err(Error::UnknownFileFormat)));
    let mut file = start_stream();
    assert!(matches!(file.read_headers(b"PK\x03\x04\x14\x00\x00\x00\x63\x00"), Err(Error::Zip(ZipError::InvalidLocalFileHeader))));
}

#[test]
fn readers_of_a_format_are_readers() {
    let file: File = stream_zipper::zip::start_stream().into();
    assert!(matches!(file, File::Zip(_)));
    let mut file: File = stream_zipper::gzip::start_stream().into();
    assert!(matches!(file, File::GZip(_)));
    let mut out = Vec::new();
    let res = file.read_internal_iter(NUMBERS_GZ, |bytes| out.extend_from_slice(bytes)).unwrap();
    assert!(matches!(res, State::NeedsInputOrEof(_)));
    assert_eq!(out, numbers());
    let state: State<File> = State::EndOfFile;
    assert!(matches!(state.assert_no_output(), State::EndOfFile));
    // The state of a reader of one format is a state of a reader of either.
    let mut zip_file = stream_zipper::zip::start_stream();
    let state: State<File> = zip_file.read(ZIPPED_AB_ZIP).unwrap().into();
    match state {
        State::HasOutput { unparsed_input, output } => {
            assert_eq!(output, &text_a()[..]);
            assert_eq!(unparsed_input, &ZIPPED_AB_ZIP[187..]);
        }
        _ => panic!("There should be output."),
    }
    let state: State<File> = zip_file.read(&ZIPPED_AB_ZIP[187..]).unwrap().into();
    assert!(matches!(state, State::NextFile { next_file: File::Zip(_), .. }));
    let mut gzip_file = stream_zipper::gzip::start_stream();
    let state: State<File> = gzip_file.read(&ZIPPED_A_GZ[..10]).unwrap().into();
    assert!(matches!(state, State::NeedsInput));
}

#[test]
fn a_reserved_flag_is_an_error_of_the_gzip_reader() {
    let mut file = start_stream();
    assert!(matches!(file.read(b"\x1f\x8b"), Ok(State::NeedsInput)));
    assert!(matches!(
        file.read(b"\x08\x20 and so on"),
        Err(Error::GZip(GZipError::InvalidMemberHeader))
    ));
    assert!(matches!(file, File::GZip(_)));
    assert_eq!(file.name(), None);

    let mut file = start_stream();
    let mut out = Vec::new();
    let res = file.read_internal_iter(b"\x1f\x8b\x08\x80", |bytes| out.extend_from_slice(bytes));
    assert!(matches!(res, Err(Error::GZip(GZipError::InvalidMemberHeader))));
    assert!(matches!(file, File::GZip(_)));
    assert_eq!(out, b"");
}

#[test]
fn a_name_can_be_asked_for_at_any_time() {
    // Bytes of no format: the reader stays as it was.
    let mut file = start_stream();
    assert!(matches!(file.read(b"abcdef"), Err(Error::UnknownFileFormat)));
    assert!(matches!(&file, File::Init(seen) if seen == b"abcd"));
    assert_eq!(file.name(), None);

    // A GZIP reader knows the name until it is told that the stream is over.
    let mut file = start_stream();
    let mut out = Vec::new();
    let res = file.read_internal_iter(ZIPPED_A_GZ, |bytes| out.extend_from_slice(bytes)).unwrap();
    assert!(matches!(res, State::NeedsInputOrEof(_)));
    assert_eq!(file.name(), Some(&b"zipped_a.txt"[..]));
    assert!(matches!(file.read(b""), Ok(State::EndOfFile)));
    assert_eq!(file.name(), None);

    // One that has met an error knows what it knew.
    let mut archive = ZIPPED_A_GZ.to_vec();
    archive[23] = 0x07;
    let mut file = start_stream();
    assert!(matches!(file.read(&archive), Err(Error::GZip(GZipError::InvalidDeflateStream))));
    assert!(matches!(file, File::GZip(_)));
}
