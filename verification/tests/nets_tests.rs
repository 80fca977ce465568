use dezero::nets::{
    chunk_ranges, count_matches, deep_conv_net_layers, deep_conv_net_param_shapes, next_dims, output_dims, param_shapes,
    simple_conv_net_shapes, AddLayer, ConvParams, FeatureDims, LayerSpec, ParamShapes,
};

#[test]
fn conv_params_defaults() {
    let p = ConvParams::default();
    assert_eq!((p.filter_num, p.filter_size, p.stride, p.pad), (30, 5, 1, 0));
}

#[test]
fn simple_conv_net_on_mnist() {
    let s = simple_conv_net_shapes((1, 28, 28), &ConvParams::default(), 100, 10);
    assert_eq!((s.conv_output_height, s.conv_output_width), (24, 24));
    assert_eq!((s.pool_output_height, s.pool_output_width), (12, 12));
    assert_eq!(s.pool_output_size, 30 * 12 * 12);
    assert_eq!(s.fan_in_conv, 25);
    assert_eq!(s.w1, (30, 1, 5, 5));
    assert_eq!(s.w2, (4320, 100));
    assert_eq!(s.w3, (100, 10));
}

#[test]
fn simple_conv_net_rounds_odd_maps_down() {
    let params = ConvParams { filter_num: 2, filter_size: 3, stride: 2, pad: 1 };
    let s = simple_conv_net_shapes((3, 9, 8), &params, 4, 5);
    // (9 + 2 - 3)/2 + 1 = 5 and (8 + 2 - 3)/2 + 1 = 4
    assert_eq!((s.conv_output_height, s.conv_output_width), (5, 4));
    assert_eq!((s.pool_output_height, s.pool_output_width), (2, 2));
    assert_eq!(s.pool_output_size, 8);
    assert_eq!(s.fan_in_conv, 27);
}

#[test]
fn evaluation_batches() {
    assert_eq!(chunk_ranges(10, 3), vec![(0, 3), (3, 6), (6, 9), (9, 10)]);
    assert_eq!(chunk_ranges(6, 3), vec![(0, 3), (3, 6)]);
    assert_eq!(chunk_ranges(0, 3), vec![]);
    assert_eq!(chunk_ranges(2, 100), vec![(0, 2)]);
}

#[test]
fn matching_predictions() {
    assert_eq!(count_matches(&vec![1, 2, 3, 4], &vec![1, 0, 3, 0]), 2);
    assert_eq!(count_matches(&vec![1, 2, 3], &vec![1, 2]), 2);
    assert_eq!(count_matches(&vec![], &vec![5]), 0);
}

#[test]
fn deep_conv_net_fits_28_by_28_images() {
    let layers = deep_conv_net_layers();
    assert_eq!(layers.len(), 21);
    match output_dims(&layers, &FeatureDims::Image(1, 28, 28)) {
        Some(FeatureDims::Flat(n)) => assert_eq!(n, 10),
        _ => panic!("the layers do not fit"),
    }
    // the flattened features feed the first affine layer exactly
    match output_dims(&layers[..16].to_vec(), &FeatureDims::Image(1, 28, 28)) {
        Some(FeatureDims::Flat(n)) => assert_eq!(n, 64 * 4 * 4),
        _ => panic!("the convolution blocks do not fit"),
    }
}

#[test]
fn deep_conv_net_rejects_other_inputs() {
    let layers = deep_conv_net_layers();
    // three channels do not fit the first convolution
    assert!(output_dims(&layers, &FeatureDims::Image(3, 28, 28)).is_none());
    // 20 × 20 maps pool down to 2 × 2, too few for the 1024 features
    assert!(output_dims(&layers, &FeatureDims::Image(1, 20, 20)).is_none());
    // pooling rounds down: 29 × 29 and 30 × 30 maps still end in 4 × 4
    assert!(matches!(output_dims(&layers, &FeatureDims::Image(1, 29, 29)), Some(FeatureDims::Flat(10))));
    assert!(matches!(output_dims(&layers, &FeatureDims::Image(1, 30, 30)), Some(FeatureDims::Flat(10))));
}

#[test]
fn single_layer_steps() {
    let conv = LayerSpec::Conv { filters: 8, channels: 3, kernel: 3, stride: 1, pad: 0 };
    assert!(matches!(next_dims(&conv, &FeatureDims::Image(3, 5, 6)), Some(FeatureDims::Image(8, 3, 4))));
    let pool = LayerSpec::Pool { size: 2, stride: 2 };
    assert!(matches!(next_dims(&pool, &FeatureDims::Image(3, 5, 6)), Some(FeatureDims::Image(3, 2, 3))));
    assert!(next_dims(&pool, &FeatureDims::Image(3, 1, 6)).is_none());
    assert!(matches!(next_dims(&LayerSpec::Flatten, &FeatureDims::Image(2, 3, 4)), Some(FeatureDims::Flat(24))));
    assert!(next_dims(&LayerSpec::Flatten, &FeatureDims::Flat(24)).is_none());
    let affine = LayerSpec::Affine { fan_in: 24, fan_out: 7 };
    assert!(matches!(next_dims(&affine, &FeatureDims::Flat(24)), Some(FeatureDims::Flat(7))));
    assert!(next_dims(&affine, &FeatureDims::Flat(23)).is_none());
}

#[test]
fn add_layer_passes_the_gradient_to_both_inputs() {
    assert_eq!(AddLayer.backward(1.1f32), (1.1, 1.1));
}

#[test]
fn deep_conv_net_parameters() {
    let p = deep_conv_net_param_shapes();
    assert_eq!(p.len(), 8);
    let convs = [(16, 1, 9), (16, 16, 144), (32, 16, 144), (32, 32, 288), (64, 32, 288), (64, 64, 576)];
    for (k, &(f, c, fan)) in convs.iter().enumerate() {
        match p[k] {
            ParamShapes::Conv { filters, bias_len, fan_in } => {
                assert_eq!(filters, (f, c, 3, 3));
                assert_eq!(bias_len, f);
                assert_eq!(fan_in, fan);
            },
            _ => panic!("expected a convolution at {k}"),
        }
    }
    assert!(matches!(p[6], ParamShapes::Affine { weights: (1024, 50), bias_row: (1, 50), fan_in: 1024 }));
    assert!(matches!(p[7], ParamShapes::Affine { weights: (50, 10), bias_row: (1, 10), fan_in: 50 }));
}

#[test]
fn layers_without_parameters_contribute_none() {
    let layers = vec![LayerSpec::Relu, LayerSpec::Flatten, LayerSpec::Pool { size: 2, stride: 2 }, LayerSpec::Dropout];
    assert!(param_shapes(&layers).is_empty());
    let conv = vec![LayerSpec::Conv { filters: 4, channels: 3, kernel: 5, stride: 2, pad: 1 }];
    assert!(matches!(param_shapes(&conv)[0], ParamShapes::Conv { filters: (4, 3, 5, 5), bias_len: 4, fan_in: 75 }));
}
