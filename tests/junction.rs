use jverb::{ChannelJunction, ConfigError};

/// Each channel becomes the mean of the block of lines that belongs to it.
fn join(junction: &ChannelJunction, lines: &[f32]) -> Vec<f32> {
    let avg = 1.0 / junction.section_len() as f32;
    (0..junction.inputs())
        .map(|channel| {
            let (start, end) = junction.block(channel);
            lines[start..end].iter().sum::<f32>() * avg
        })
        .collect()
}

fn split(junction: &ChannelJunction, channels: &[f32]) -> Vec<f32> {
    let mut lines = vec![0.0f32; junction.outputs()];
    junction.split(channels, &mut lines);
    lines
}

#[test]
fn test_junction() {
    let junction = ChannelJunction::new(2, 32).unwrap();

    assert_eq!(split(&junction, &[1.0, 1.0]), vec![1.0; 32]);

    let mut input = vec![0.25; 32];
    for ii in 0..16 {
        input[ii] = 1.0;
    }

    assert_eq!(split(&junction, &[1.0, 0.25]), input);

    assert_eq!(join(&junction, &[1.0; 32]), vec![1.0, 1.0]);

    let mut output = vec![0.25; 32];
    for ii in 0..16 {
        output[ii] = 1.0;
    }

    assert_eq!(join(&junction, &output), vec![1.0, 0.25]);
}

#[test]
fn junction_refuses_empty_and_uneven_shapes() {
    assert!(matches!(ChannelJunction::new(0, 4), Err(ConfigError::NoChannels)));
    assert!(matches!(ChannelJunction::new(2, 0), Err(ConfigError::NoChannels)));
    assert!(matches!(ChannelJunction::new(3, 4), Err(ConfigError::UnevenChannels)));
    assert!(matches!(ChannelJunction::new(4, 2), Err(ConfigError::UnevenChannels)));
    assert!(ChannelJunction::new(3, 3).is_ok());
}

#[test]
fn junction_blocks_tile_the_lines() {
    let junction = ChannelJunction::new(3, 12).unwrap();
    assert_eq!(junction.inputs(), 3);
    assert_eq!(junction.outputs(), 12);
    assert_eq!(junction.section_len(), 4);
    assert_eq!(junction.block(0), (0, 4));
    assert_eq!(junction.block(1), (4, 8));
    assert_eq!(junction.block(2), (8, 12));
}

#[test]
fn split_copies_each_channel_onto_its_block() {
    let junction = ChannelJunction::new(3, 6).unwrap();
    let mut lines = vec![0u8; 6];
    junction.split(&[7u8, 8, 9], &mut lines);
    assert_eq!(lines, vec![7, 7, 8, 8, 9, 9]);
}

#[test]
fn join_of_split_returns_the_channels() {
    for &(inputs, outputs) in &[(1usize, 1usize), (1, 4), (2, 4), (2, 32), (4, 16), (3, 6)] {
        let junction = ChannelJunction::new(inputs, outputs).unwrap();
        let channels: Vec<f32> = (0..inputs).map(|c| 0.25 * c as f32 - 1.5).collect();
        assert_eq!(join(&junction, &split(&junction, &channels)), channels);
    }
}
